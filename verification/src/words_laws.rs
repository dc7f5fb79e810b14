//! What the words of a question and their patterns promise.
use vstd::prelude::*;

use crate::order;
use crate::seqs;
use crate::text;
use crate::words;

verus! {

// ---- cutting ----

/// Whether a character joins a word, given whether it is alphanumeric.
pub open spec fn joins(c: char, alnum: bool) -> bool {
    alnum || c == '_' || c == '-' || c == '.'
}

/// Characters that all join a word are one piece, and a character that does
/// not join one cuts what stands before it from what stands behind it.
pub proof fn outsiders_cut(
    a: Seq<char>,
    a_alnum: Seq<bool>,
    c: char,
    b: Seq<char>,
    b_alnum: Seq<bool>,
)
    requires
        a.len() == a_alnum.len(),
        b.len() == b_alnum.len(),
        !joins(c, false),
    ensures
        (forall|i: int| 0 <= i < a.len() ==> joins(#[trigger] a[i], a_alnum[i])) ==> words::pieces(
            a,
            a_alnum,
            a.len(),
        ) == seq![a],
        words::pieces(
            a.push(c) + b,
            a_alnum.push(false) + b_alnum,
            (a.len() + 1 + b.len()) as nat,
        ) == words::pieces(a, a_alnum, a.len()) + words::pieces(b, b_alnum, b.len()),
{
    if forall|i: int| 0 <= i < a.len() ==> joins(#[trigger] a[i], a_alnum[i]) {
        lemma_one_piece(a, a_alnum, a.len());
        assert(a.take(a.len() as int) =~= a);
    }
    lemma_cut(a, a_alnum, c, b, b_alnum, b.len());
}

proof fn lemma_one_piece(s: Seq<char>, alnum: Seq<bool>, n: nat)
    requires
        n <= s.len() == alnum.len(),
        forall|i: int| 0 <= i < s.len() ==> joins(#[trigger] s[i], alnum[i]),
    ensures
        words::pieces(s, alnum, n) == seq![s.take(n as int)],
    decreases n,
{
    if n == 0 {
        assert(s.take(0) =~= Seq::<char>::empty());
    } else {
        lemma_one_piece(s, alnum, (n - 1) as nat);
        assert(joins(s[n - 1], alnum[n - 1]));
        assert(s.take(n as int) =~= s.take(n - 1).push(s[n - 1]));
        assert(words::pieces(s, alnum, n) =~= seq![s.take(n as int)]);
    }
}

proof fn lemma_same_start(
    s: Seq<char>,
    s_alnum: Seq<bool>,
    t: Seq<char>,
    t_alnum: Seq<bool>,
    n: nat,
)
    requires
        n <= s.len(),
        n <= t.len(),
        n <= s_alnum.len(),
        n <= t_alnum.len(),
        forall|i: int| 0 <= i < n ==> s[i] == t[i] && s_alnum[i] == t_alnum[i],
    ensures
        words::pieces(s, s_alnum, n) == words::pieces(t, t_alnum, n),
    decreases n,
{
    if n > 0 {
        lemma_same_start(s, s_alnum, t, t_alnum, (n - 1) as nat);
    }
}

proof fn lemma_some_piece(s: Seq<char>, alnum: Seq<bool>, n: nat)
    ensures
        words::pieces(s, alnum, n).len() > 0,
    decreases n,
{
    if n > 0 {
        lemma_some_piece(s, alnum, (n - 1) as nat);
    }
}

proof fn lemma_cut(
    a: Seq<char>,
    a_alnum: Seq<bool>,
    c: char,
    b: Seq<char>,
    b_alnum: Seq<bool>,
    n: nat,
)
    requires
        a.len() == a_alnum.len(),
        b.len() == b_alnum.len(),
        !joins(c, false),
        n <= b.len(),
    ensures
        words::pieces(
            a.push(c) + b,
            a_alnum.push(false) + b_alnum,
            (a.len() + 1 + n) as nat,
        ) == words::pieces(a, a_alnum, a.len()) + words::pieces(b, b_alnum, n),
    decreases n,
{
    let s = a.push(c) + b;
    let alnum = a_alnum.push(false) + b_alnum;
    let m = (a.len() + 1 + n) as nat;
    let head = words::pieces(a, a_alnum, a.len());
    if n == 0 {
        lemma_same_start(s, alnum, a, a_alnum, a.len());
        assert(s[m - 1] == c && alnum[m - 1] == false);
        assert(words::pieces(s, alnum, m) =~= head + words::pieces(b, b_alnum, 0));
    } else {
        lemma_cut(a, a_alnum, c, b, b_alnum, (n - 1) as nat);
        lemma_some_piece(b, b_alnum, (n - 1) as nat);
        let before = words::pieces(b, b_alnum, (n - 1) as nat);
        assert(s[m - 1] == b[n - 1] && alnum[m - 1] == b_alnum[n - 1]);
        assert((head + before).last() == before.last());
        assert((head + before).drop_last() =~= head + before.drop_last());
        assert(words::pieces(s, alnum, m) =~= head + words::pieces(b, b_alnum, n));
    }
}

/// A trimmed word is the part of it between the dots and dashes at its ends:
/// only dots and dashes are taken off, and none is left at an end.
pub proof fn trimming_takes_dots_and_dashes(s: Seq<char>) -> (r: (int, int))
    ensures
        ({
            let (from, to) = r;
            let t = words::trimmed(s);
            &&& 0 <= from <= to <= s.len()
            &&& t == s.subrange(from, to)
            &&& forall|i: int| 0 <= i < from ==> (#[trigger] s[i] == '.' || s[i] == '-')
            &&& forall|i: int| to <= i < s.len() ==> (#[trigger] s[i] == '.' || s[i] == '-')
            &&& t.len() > 0 ==> t[0] != '.' && t[0] != '-' && t.last() != '.' && t.last() != '-'
        }),
    decreases s.len(),
{
    if s.len() == 0 {
        assert(s =~= s.subrange(0, 0));
        (0, 0)
    } else if s[0] == '.' || s[0] == '-' {
        let rest = s.drop_first();
        let (from, to) = trimming_takes_dots_and_dashes(rest);
        assert(rest.subrange(from, to) =~= s.subrange(from + 1, to + 1));
        assert forall|i: int| 0 <= i < from + 1 implies (#[trigger] s[i] == '.' || s[i]
            == '-') by {
            if i > 0 {
                assert(rest[i - 1] == s[i]);
            }
        }
        assert forall|i: int| to + 1 <= i < s.len() implies (#[trigger] s[i] == '.' || s[i]
            == '-') by {
            assert(rest[i - 1] == s[i]);
        }
        (from + 1, to + 1)
    } else if s.last() == '.' || s.last() == '-' {
        let rest = s.drop_last();
        let (from, to) = trimming_takes_dots_and_dashes(rest);
        assert(rest.subrange(from, to) =~= s.subrange(from, to));
        assert forall|i: int| 0 <= i < from implies (#[trigger] s[i] == '.' || s[i] == '-') by {
            assert(rest[i] == s[i]);
        }
        assert forall|i: int| to <= i < s.len() implies (#[trigger] s[i] == '.' || s[i]
            == '-') by {
            if i < rest.len() {
                assert(rest[i] == s[i]);
            }
        }
        (from, to)
    } else {
        assert(s =~= s.subrange(0, s.len() as int));
        (0, s.len() as int)
    }
}

// ---- picking ----

/// Whether word `i` has three characters at least, and no word before it that
/// does has the same key.
pub open spec fn comes_first(words: Seq<Seq<char>>, keys: Seq<Seq<char>>) -> spec_fn(int) -> bool {
    |i: int|
        words[i].len() >= 3 && forall|j: int|
            0 <= j < i && (#[trigger] words[j]).len() >= 3 ==> keys[j] != keys[i]
}

/// The places below `n`.
pub open spec fn places(n: nat) -> Seq<int> {
    Seq::new(n, |i: int| i)
}

/// The new words are those of three characters and more that come first with
/// their key, in order.
pub proof fn new_words_come_first(words: Seq<Seq<char>>, keys: Seq<Seq<char>>, n: nat)
    requires
        n <= words.len() == keys.len(),
    ensures
        words::new_words(words, keys, n) == places(n).filter(
            comes_first(words, keys),
        ).map_values(|i: int| words[i]),
    decreases n,
{
    reveal(Seq::filter);
    let keep = comes_first(words, keys);
    if n == 0 {
        assert(places(0).filter(keep).map_values(|i: int| words[i]) =~= Seq::<Seq<char>>::empty());
    } else {
        let m = (n - 1) as nat;
        new_words_come_first(words, keys, m);
        assert(places(n).drop_last() =~= places(m));
        assert(places(n).last() == n - 1);
        assert(keep(n - 1) == words::is_new(words, keys, n - 1)) by {
            if words::is_new(words, keys, n - 1) {
                assert forall|j: int| 0 <= j < n - 1 && (#[trigger] words[j]).len()
                    >= 3 implies keys[j] != keys[n - 1] by {
                    assert(words::long_enough(words[j]));
                }
            }
            if keep(n - 1) {
                assert forall|j: int| 0 <= j < n - 1 && words::long_enough(
                    #[trigger] words[j],
                ) implies keys[j] != keys[n - 1] by {
                    assert(words[j].len() >= 3);
                }
            }
        }
        assert(words::new_words(words, keys, n) =~= places(n).filter(keep).map_values(
            |i: int| words[i],
        ));
    }
}

/// The words of a question are the first eight of its new words, or all if
/// there are fewer: the pieces of the question without the dots and dashes
/// around them, compared by their lower-case forms.
pub proof fn questions_keep_their_first_words(query: Seq<char>)
    ensures
        ({
            let alnum = Seq::new(query.len(), |i: int| words::alphanumeric(query[i]));
            let pieces = words::pieces(query, alnum, query.len());
            let all = Seq::new(pieces.len(), |i: int| words::trimmed(pieces[i]));
            let keys = Seq::new(pieces.len(), |i: int| words::lowercased(words::trimmed(pieces[i])));
            let fresh = words::new_words(all, keys, pieces.len());
            let n = if fresh.len() < 8 {
                fresh.len() as int
            } else {
                8
            };
            words::words_of(query) == fresh.take(n)
        }),
{
    let alnum = Seq::new(query.len(), |i: int| words::alphanumeric(query[i]));
    let pieces = words::pieces(query, alnum, query.len());
    let all = Seq::new(pieces.len(), |i: int| words::trimmed(pieces[i]));
    let keys = Seq::new(pieces.len(), |i: int| words::lowercased(words::trimmed(pieces[i])));
    let fresh = words::new_words(all, keys, pieces.len());
    assert(alnum =~= query.map_values(|c: char| words::alphanumeric(c)));
    assert(all =~= pieces.map_values(|p: Seq<char>| words::trimmed(p)));
    assert(keys =~= all.map_values(|w: Seq<char>| words::lowercased(w)));
    if fresh.len() <= 8 {
        assert(fresh.take(fresh.len() as int) =~= fresh);
    }
}

/// No two words of a question have the same lower-case form.
pub proof fn words_differ_in_any_case(query: Seq<char>, i: int, j: int)
    requires
        0 <= i < j < words::words_of(query).len(),
    ensures
        words::lowercased(words::words_of(query)[i]) != words::lowercased(
            words::words_of(query)[j],
        ),
{
    questions_keep_their_first_words(query);
    let alnum = Seq::new(query.len(), |k: int| words::alphanumeric(query[k]));
    let pieces = words::pieces(query, alnum, query.len());
    let all = Seq::new(pieces.len(), |k: int| words::trimmed(pieces[k]));
    let keys = Seq::new(pieces.len(), |k: int| words::lowercased(words::trimmed(pieces[k])));
    lemma_new_keys(all, keys, pieces.len());
}

/// Whether `w` is one of the first `n` words that is long enough.
spec fn is_long_word(all: Seq<Seq<char>>, n: nat, w: Seq<char>) -> bool {
    exists|a: int| 0 <= a < n && words::long_enough(#[trigger] all[a]) && all[a] == w
}

proof fn lemma_new_keys(all: Seq<Seq<char>>, keys: Seq<Seq<char>>, n: nat)
    requires
        n <= all.len() == keys.len(),
        forall|k: int| 0 <= k < all.len() ==> #[trigger] keys[k] == words::lowercased(all[k]),
    ensures
        forall|k: int|
            0 <= k < words::new_words(all, keys, n).len() ==> is_long_word(
                all,
                n,
                #[trigger] words::new_words(all, keys, n)[k],
            ),
        forall|x: int, y: int|
            0 <= x < y < words::new_words(all, keys, n).len() ==> words::lowercased(
                #[trigger] words::new_words(all, keys, n)[x],
            ) != words::lowercased(#[trigger] words::new_words(all, keys, n)[y]),
    decreases n,
{
    if n > 0 {
        let m = (n - 1) as nat;
        lemma_new_keys(all, keys, m);
        let before = words::new_words(all, keys, m);
        let now = words::new_words(all, keys, n);
        assert forall|k: int| 0 <= k < now.len() implies is_long_word(all, n, #[trigger] now[k]) by {
            if k < before.len() {
                assert(now[k] == before[k]);
                assert(is_long_word(all, m, before[k]));
                let a = choose|a: int|
                    0 <= a < m && words::long_enough(#[trigger] all[a]) && all[a] == before[k];
                assert(all[a] == now[k]);
            } else {
                assert(all[n - 1] == now[k]);
            }
        }
        assert forall|x: int, y: int| 0 <= x < y < now.len() implies words::lowercased(
            #[trigger] now[x],
        ) != words::lowercased(#[trigger] now[y]) by {
            assert(now[x] == before[x]);
            if y < before.len() {
                assert(now[y] == before[y]);
            } else {
                assert(is_long_word(all, m, before[x]));
                let a = choose|a: int|
                    0 <= a < m && words::long_enough(#[trigger] all[a]) && all[a] == before[x];
                assert(keys[a] != keys[n - 1]);
            }
        }
    }
}

/// The words that tell enough are those with a known number of candidates, at
/// most fifty thousand, in order.
pub proof fn rare_words_tell(all: Seq<Seq<char>>, counts: Seq<Option<usize>>, n: nat)
    requires
        n <= all.len() == counts.len(),
    ensures
        words::telling(all, counts, n) == places(n).filter(rare(counts)).map_values(
            |i: int| all[i],
        ),
    decreases n,
{
    reveal(Seq::filter);
    let keep = rare(counts);
    if n == 0 {
        assert(places(0).filter(keep).map_values(|i: int| all[i]) =~= Seq::<Seq<char>>::empty());
    } else {
        rare_words_tell(all, counts, (n - 1) as nat);
        assert(places(n).drop_last() =~= places((n - 1) as nat));
        assert(places(n).last() == n - 1);
        assert(words::telling(all, counts, n) =~= places(n).filter(keep).map_values(
            |i: int| all[i],
        ));
    }
}

/// Whether the number of candidates at a place is known and at most fifty
/// thousand.
pub open spec fn rare(counts: Seq<Option<usize>>) -> spec_fn(int) -> bool {
    |i: int| counts[i] is Some && counts[i]->0 <= 50_000
}

// ---- patterns ----

/// The spellings of a word are the word itself, its lower-case and its
/// upper-case form, and the lower-case form with its first character in upper
/// case if that character is ASCII.
pub proof fn words_are_looked_for_in_four_spellings(word: Seq<char>)
    ensures
        ({
            let lower = words::lowercased(word);
            let s = words::spellings(word);
            &&& s.len() == 4
            &&& s[0] == word
            &&& s[1] == lower
            &&& s[2] == words::uppercased(word)
            &&& lower.len() > 0 && (lower[0] as u32) < 128 ==> s[3] == words::uppercased(
                seq![lower[0]],
            ) + lower.skip(1)
            &&& lower.len() == 0 || (lower[0] as u32) >= 128 ==> s[3] == lower
        }),
{
    let lower = words::lowercased(word);
    if lower.len() > 0 {
        assert(lower.take(1) =~= seq![lower[0]]);
        assert(lower.drop_first() =~= lower.skip(1));
    }
}

/// A pattern of spellings looks for each of them, escaped, as a whole word: the
/// alternatives ascend, none is missing, and none is there besides.
pub proof fn patterns_list_their_spellings(spellings: Seq<Seq<char>>) -> (items: Seq<Seq<char>>)
    ensures
        order::ascending_texts(items),
        forall|x: Seq<char>| #[trigger]
            items.contains(x) <==> exists|i: int|
                0 <= i < spellings.len() && words::escaped(#[trigger] spellings[i]) == x,
        words::spellings_pattern(spellings) == "\\b(?:"@ + text::separated(items, '|') + ")\\b"@,
{
    let quoted = spellings.map_values(|s: Seq<char>| words::escaped(s));
    let items = words::listing(quoted.to_set());
    lemma_listing(quoted);
    assert forall|x: Seq<char>| #[trigger] items.contains(x) <==> exists|i: int|
        0 <= i < spellings.len() && words::escaped(#[trigger] spellings[i]) == x by {
        assert(items.to_set().contains(x) <==> quoted.to_set().contains(x));
        if quoted.contains(x) {
            let i = choose|i: int| 0 <= i < quoted.len() && quoted[i] == x;
            assert(words::escaped(spellings[i]) == x);
        }
        if exists|i: int| 0 <= i < spellings.len() && words::escaped(#[trigger] spellings[i])
            == x {
            let i = choose|i: int|
                0 <= i < spellings.len() && words::escaped(#[trigger] spellings[i]) == x;
            assert(quoted[i] == x);
        }
    }
    items
}

/// Texts can be listed in ascending order.
proof fn lemma_listing(s: Seq<Seq<char>>)
    ensures
        order::ascending_texts(words::listing(s.to_set())),
        words::listing(s.to_set()).to_set() == s.to_set(),
{
    let t = lemma_ascending(s);
    assert(order::ascending_texts(t) && t.to_set() == s.to_set());
}

proof fn lemma_ascending(s: Seq<Seq<char>>) -> (t: Seq<Seq<char>>)
    ensures
        order::ascending_texts(t),
        t.to_set() == s.to_set(),
    decreases s.len(),
{
    if s.len() == 0 {
        assert(Seq::<Seq<char>>::empty().to_set() =~= s.to_set());
        Seq::empty()
    } else {
        let x = s.last();
        let rest = lemma_ascending(s.drop_last());
        order::texts_are_ordered();
        let below = |y: Seq<char>| order::text_less(y, x);
        let above = |y: Seq<char>| order::text_less(x, y);
        let t = rest.filter(below).push(x) + rest.filter(above);
        lemma_filter_ascends(rest, below);
        lemma_filter_ascends(rest, above);
        seqs::lemma_filter_members(rest, below);
        seqs::lemma_filter_members(rest, above);
        let lo = rest.filter(below);
        let hi = rest.filter(above);
        assert forall|i: int, j: int| 0 <= i < j < t.len() implies order::text_less(t[i], t[j]) by {
            if i < lo.len() {
                assert(lo.contains(lo[i]));
            }
            if j > lo.len() {
                assert(hi.contains(hi[j - lo.len() - 1]));
            }
        }
        assert forall|y: Seq<char>| t.to_set().contains(y) <==> s.to_set().contains(y) by {
            assert(rest.to_set().contains(y) <==> s.drop_last().to_set().contains(y));
            if s.contains(y) && y != x {
                let k = choose|k: int| 0 <= k < s.len() && s[k] == y;
                assert(s.drop_last()[k] == y);
                assert(rest.contains(y));
                if order::text_less(y, x) {
                    assert(lo.contains(y));
                    let i = choose|i: int| 0 <= i < lo.len() && lo[i] == y;
                    assert(t[i] == y);
                } else {
                    assert(hi.contains(y));
                    let i = choose|i: int| 0 <= i < hi.len() && hi[i] == y;
                    assert(t[lo.len() + 1 + i] == y);
                }
            }
            assert(t[lo.len() as int] == x);
            assert(s[s.len() - 1] == x);
            if t.contains(y) && y != x {
                let i = choose|i: int| 0 <= i < t.len() && t[i] == y;
                if i < lo.len() {
                    assert(lo.contains(lo[i]));
                } else {
                    assert(hi.contains(hi[i - lo.len() - 1]));
                }
                assert(rest.contains(y));
                assert(s.drop_last().contains(y));
                let k = choose|k: int| 0 <= k < s.drop_last().len() && s.drop_last()[k] == y;
                assert(s[k] == y);
            }
        }
        assert(t.to_set() =~= s.to_set());
        t
    }
}

proof fn lemma_filter_ascends(s: Seq<Seq<char>>, keep: spec_fn(Seq<char>) -> bool)
    requires
        order::ascending_texts(s),
    ensures
        order::ascending_texts(s.filter(keep)),
    decreases s.len(),
{
    reveal(Seq::filter);
    if s.len() > 0 {
        let rest = s.drop_last();
        lemma_filter_ascends(rest, keep);
        seqs::lemma_filter(rest, keep);
        let kept = rest.filter(keep);
        let now = s.filter(keep);
        assert forall|i: int, j: int| 0 <= i < j < now.len() implies order::text_less(
            now[i],
            now[j],
        ) by {
            assert(now[i] == kept[i]);
            if j < kept.len() {
                assert(now[j] == kept[j]);
            } else {
                assert(rest.contains(kept[i]));
                let k = choose|k: int| 0 <= k < rest.len() && rest[k] == kept[i];
                assert(s[k] == kept[i]);
                assert(order::text_less(s[k], s[s.len() - 1]));
            }
        }
    }
}

/// The pattern of several words looks for each of them, escaped, as a whole
/// word, in their order.
pub proof fn any_word_lists_the_words(all: Seq<Seq<char>>)
    ensures
        words::any_word(all) == "\\b(?:"@ + text::separated(
            Seq::new(all.len(), |i: int| words::escaped(all[i])),
            '|',
        ) + ")\\b"@,
{
    assert(all.map_values(|w: Seq<char>| words::escaped(w)) =~= Seq::new(
        all.len(),
        |i: int| words::escaped(all[i]),
    ));
}

} // verus!
