//! The words of a question, and the patterns that find them.
use vstd::prelude::*;

use crate::order;
use crate::text;
use crate::text_set::TextSet;

verus! {

// ---- outside functions ----

/// Whether a character is alphabetic or numeric in the sense of Unicode.
pub uninterp spec fn alphanumeric(c: char) -> bool;

/// `char::is_alphanumeric`: a function of the character alone. Which
/// characters it accepts is left unsaid.
#[verifier::external_body]
fn is_alphanumeric(c: char) -> (r: bool)
    ensures
        r == alphanumeric(c),
{
    c.is_alphanumeric()
}

/// A text in lower case, by the mapping of Unicode.
pub uninterp spec fn lowercased(s: Seq<char>) -> Seq<char>;

/// `str::to_lowercase`: a function of the text alone. The mapping itself is
/// left unsaid.
#[verifier::external_body]
fn to_lowercase(s: &str) -> (r: String)
    ensures
        r@ == lowercased(s@),
{
    s.to_lowercase()
}

/// A text in upper case, by the mapping of Unicode.
pub uninterp spec fn uppercased(s: Seq<char>) -> Seq<char>;

/// `str::to_uppercase`: a function of the text alone. The mapping itself is
/// left unsaid.
#[verifier::external_body]
fn to_uppercase(s: &str) -> (r: String)
    ensures
        r@ == uppercased(s@),
{
    s.to_uppercase()
}

/// Whether a character has a meaning of its own in a regular expression.
pub open spec fn meta(c: char) -> bool {
    c == '\\' || c == '.' || c == '+' || c == '*' || c == '?' || c == '(' || c == ')' || c == '|'
        || c == '[' || c == ']' || c == '{' || c == '}' || c == '^' || c == '$' || c == '#' || c
        == '&' || c == '-' || c == '~'
}

/// A text with a backslash before each character that has a meaning of its
/// own.
pub open spec fn escaped(s: Seq<char>) -> Seq<char>
    decreases s.len(),
{
    if s.len() == 0 {
        Seq::empty()
    } else {
        let before = escaped(s.drop_last());
        if meta(s.last()) {
            before.push('\\').push(s.last())
        } else {
            before.push(s.last())
        }
    }
}

/// `regex::escape`: every character that has a meaning of its own in a
/// regular expression gets a backslash, all others stand as they are.
#[verifier::external_body]
fn escape(s: &str) -> (r: String)
    ensures
        r@ == escaped(s@),
{
    regex::escape(s)
}

// ---- words ----

/// Whether a character belongs to a word, given whether it is alphanumeric.
pub open spec fn word_char(c: char, alnum: bool) -> bool {
    alnum || c == '_' || c == '-' || c == '.'
}

/// The first `n` characters cut at every character outside words.
pub open spec fn pieces(chars: Seq<char>, alnum: Seq<bool>, n: nat) -> Seq<Seq<char>>
    decreases n,
{
    if n == 0 {
        seq![Seq::empty()]
    } else {
        let before = pieces(chars, alnum, (n - 1) as nat);
        if word_char(chars[n - 1], alnum[n - 1]) {
            before.drop_last().push(before.last().push(chars[n - 1]))
        } else {
            before.push(Seq::empty())
        }
    }
}

pub open spec fn trimmable(c: char) -> bool {
    c == '.' || c == '-'
}

/// A word without the dots and dashes around it.
pub open spec fn trimmed(s: Seq<char>) -> Seq<char>
    decreases s.len(),
{
    if s.len() == 0 {
        s
    } else if trimmable(s[0]) {
        trimmed(s.drop_first())
    } else if trimmable(s.last()) {
        trimmed(s.drop_last())
    } else {
        s
    }
}

/// Whether a word is long enough to look for: three characters.
pub open spec fn long_enough(word: Seq<char>) -> bool {
    word.len() >= 3
}

/// Whether word `i` is long enough and none before it has the same key.
pub open spec fn is_new(words: Seq<Seq<char>>, keys: Seq<Seq<char>>, i: int) -> bool {
    long_enough(words[i]) && forall|j: int|
        0 <= j < i && long_enough(#[trigger] words[j]) ==> keys[j] != keys[i]
}

/// The new ones among the first `n` words.
pub open spec fn new_words(words: Seq<Seq<char>>, keys: Seq<Seq<char>>, n: nat) -> Seq<Seq<char>>
    decreases n,
{
    if n == 0 {
        Seq::empty()
    } else if is_new(words, keys, n - 1) {
        new_words(words, keys, (n - 1) as nat).push(words[n - 1])
    } else {
        new_words(words, keys, (n - 1) as nat)
    }
}

/// At most the first `n` members.
pub open spec fn at_most<T>(s: Seq<T>, n: int) -> Seq<T> {
    if s.len() <= n {
        s
    } else {
        s.take(n)
    }
}

/// The words of a question that are worth looking for: at most eight, without
/// repetition in another case.
pub open spec fn words_of(query: Seq<char>) -> Seq<Seq<char>> {
    let alnum = query.map_values(|c: char| alphanumeric(c));
    let words = pieces(query, alnum, query.len()).map_values(|p: Seq<char>| trimmed(p));
    let keys = words.map_values(|w: Seq<char>| lowercased(w));
    at_most(new_words(words, keys, words.len()), 8)
}

/// Cut characters into pieces, given which of them are alphanumeric.
pub fn split_words(chars: &Vec<char>, alnum: &Vec<bool>) -> (r: Vec<String>)
    requires
        chars@.len() == alnum@.len(),
    ensures
        text::texts(r@) == pieces(chars@, alnum@, chars@.len()),
{
    let mut done: Vec<String> = Vec::new();
    let mut current = String::new();
    let mut i: usize = 0;
    proof {
        assert(text::texts(done@).push(current@) =~= seq![Seq::<char>::empty()]);
    }
    while i < chars.len()
        invariant
            i <= chars@.len() == alnum@.len(),
            text::texts(done@).push(current@) == pieces(chars@, alnum@, i as nat),
        decreases chars@.len() - i,
    {
        let c: char = chars[i];
        let ghost before = text::texts(done@);
        let ghost piece = current@;
        proof {
            assert(before.push(piece).drop_last() =~= before);
        }
        if alnum[i] || c == '_' || c == '-' || c == '.' {
            current.push(c);
        } else {
            done.push(current);
            current = String::new();
            proof {
                assert(text::texts(done@) =~= before.push(piece));
            }
        }
        i = i + 1;
    }
    let ghost before = text::texts(done@);
    let ghost piece = current@;
    done.push(current);
    proof {
        assert(text::texts(done@) =~= before.push(piece));
    }
    done
}

/// A word without the dots and dashes around it.
pub fn trim_word(word: &str) -> (r: String)
    ensures
        r@ == trimmed(word@),
{
    let chars = text::chars_of(word);
    let mut from: usize = 0;
    let mut to: usize = chars.len();
    proof {
        assert(chars@.subrange(0, to as int) =~= chars@);
    }
    while from < to && (chars[from] == '.' || chars[from] == '-')
        invariant
            from <= to == chars@.len(),
            trimmed(chars@.subrange(from as int, to as int)) == trimmed(word@),
        decreases to - from,
    {
        proof {
            let s = chars@.subrange(from as int, to as int);
            assert(s[0] == chars@[from as int]);
            assert(s.drop_first() =~= chars@.subrange(from + 1, to as int));
        }
        from = from + 1;
    }
    while from < to && (chars[to - 1] == '.' || chars[to - 1] == '-')
        invariant
            from <= to <= chars@.len(),
            from < to ==> !trimmable(chars@[from as int]),
            trimmed(chars@.subrange(from as int, to as int)) == trimmed(word@),
        decreases to - from,
    {
        proof {
            let s = chars@.subrange(from as int, to as int);
            assert(s[0] == chars@[from as int]);
            assert(s.last() == chars@[to - 1]);
            assert(s.drop_last() =~= chars@.subrange(from as int, to - 1));
        }
        to = to - 1;
    }
    proof {
        let s = chars@.subrange(from as int, to as int);
        if from < to {
            assert(s[0] == chars@[from as int]);
            assert(s.last() == chars@[to - 1]);
        }
    }
    text::text_of(&chars, from, to)
}

/// Pick the words to look for, given their lower-case keys.
pub fn pick_words(words: &Vec<String>, keys: &Vec<String>) -> (r: Vec<String>)
    requires
        words@.len() == keys@.len(),
    ensures
        text::texts(r@) == at_most(
            new_words(text::texts(words@), text::texts(keys@), words@.len()),
            8,
        ),
{
    let ghost w = text::texts(words@);
    let ghost k = text::texts(keys@);
    let mut seen = TextSet::new();
    let mut r: Vec<String> = Vec::new();
    let mut i: usize = 0;
    proof {
        assert(text::texts(r@) =~= new_words(w, k, 0));
    }
    while i < words.len()
        invariant
            i <= words@.len() == keys@.len(),
            w == text::texts(words@),
            k == text::texts(keys@),
            forall|key: Seq<char>| #[trigger]
                seen@.contains(key) <==> exists|j: int|
                    0 <= j < i && long_enough(#[trigger] w[j]) && k[j] == key,
            text::texts(r@) == at_most(new_words(w, k, i as nat), 8),
        decreases words@.len() - i,
    {
        let word = words[i].as_str();
        let key = keys[i].as_str();
        let ghost before = seen@;
        let ghost kept = new_words(w, k, i as nat);
        let ghost out = text::texts(r@);
        proof {
            assert(w[i as int] == word@);
            assert(k[i as int] == key@);
        }
        if word.unicode_len() >= 3 {
            let fresh = seen.insert(key);
            proof {
                assert(fresh == is_new(w, k, i as int));
                assert forall|x: Seq<char>| #[trigger] seen@.contains(x) <==> exists|j: int|
                    0 <= j < i + 1 && long_enough(#[trigger] w[j]) && k[j] == x by {
                    assert(seen@.to_set().contains(x) <==> before.to_set().insert(key@).contains(
                        x,
                    ));
                    assert(before.to_set().contains(x) <==> before.contains(x));
                    if x == key@ {
                        assert(long_enough(w[i as int]) && k[i as int] == x);
                    }
                }
            }
            if fresh && r.len() < 8 {
                r.push(words[i].clone());
                proof {
                    assert(text::texts(r@) =~= out.push(word@));
                }
            }
        } else {
            proof {
                assert(!long_enough(w[i as int]));
                assert forall|x: Seq<char>| #[trigger] seen@.contains(x) <==> exists|j: int|
                    0 <= j < i + 1 && long_enough(#[trigger] w[j]) && k[j] == x by {}
            }
        }
        proof {
            let next = new_words(w, k, (i + 1) as nat);
            if is_new(w, k, i as int) {
                assert(next == kept.push(word@));
                if kept.len() >= 8 {
                    assert(at_most(next, 8) =~= at_most(kept, 8));
                }
            }
        }
        i = i + 1;
    }
    r
}

/// The words of a question that are worth looking for.
pub fn query_words(query: &str) -> (r: Vec<String>)
    ensures
        text::texts(r@) == words_of(query@),
{
    let chars = text::chars_of(query);
    let mut alnum: Vec<bool> = Vec::new();
    let mut i: usize = 0;
    while i < chars.len()
        invariant
            i <= chars@.len(),
            alnum@.len() == i,
            forall|k: int| 0 <= k < i ==> alnum@[k] == alphanumeric(chars@[k]),
        decreases chars@.len() - i,
    {
        alnum.push(is_alphanumeric(chars[i]));
        i = i + 1;
    }
    proof {
        assert(alnum@ =~= query@.map_values(|c: char| alphanumeric(c)));
    }
    let raw = split_words(&chars, &alnum);
    let mut words: Vec<String> = Vec::new();
    let mut keys: Vec<String> = Vec::new();
    let mut j: usize = 0;
    while j < raw.len()
        invariant
            j <= raw@.len(),
            words@.len() == j,
            keys@.len() == j,
            forall|k: int| 0 <= k < j ==> (#[trigger] words@[k])@ == trimmed(raw@[k]@),
            forall|k: int| 0 <= k < j ==> (#[trigger] keys@[k])@ == lowercased(words@[k]@),
        decreases raw@.len() - j,
    {
        let word = trim_word(raw[j].as_str());
        keys.push(to_lowercase(word.as_str()));
        words.push(word);
        j = j + 1;
    }
    proof {
        let all = pieces(query@, alnum@, query@.len()).map_values(|p: Seq<char>| trimmed(p));
        assert(text::texts(words@) =~= all);
        assert(text::texts(keys@) =~= all.map_values(|w: Seq<char>| lowercased(w)));
    }
    pick_words(&words, &keys)
}

// ---- patterns ----

/// The pattern for one of several alternatives as a whole word.
pub open spec fn whole_word(alternatives: Seq<Seq<char>>) -> Seq<char> {
    "\\b(?:"@ + text::separated(alternatives, '|') + ")\\b"@
}

/// A lower-case text with its first character in upper case, if that is ASCII.
pub open spec fn titled(lower: Seq<char>, first_upper: Seq<char>) -> Seq<char> {
    if starts_ascii(lower) {
        first_upper + lower.drop_first()
    } else {
        lower
    }
}

/// The ascending listing of a set of texts.
pub open spec fn listing(set: Set<Seq<char>>) -> Seq<Seq<char>> {
    choose|s: Seq<Seq<char>>| order::ascending_texts(s) && #[trigger] s.to_set() == set
}

/// The pattern that finds a word in any of its spellings.
pub open spec fn spellings_pattern(spellings: Seq<Seq<char>>) -> Seq<char> {
    whole_word(listing(spellings.map_values(|s: Seq<char>| escaped(s)).to_set()))
}

/// The spellings of a word to look for: as it is, in lower case, in upper
/// case and as a title.
pub open spec fn spellings(word: Seq<char>) -> Seq<Seq<char>> {
    let lower = lowercased(word);
    seq![word, lower, uppercased(word), titled(lower, uppercased(lower.take(1)))]
}

fn whole_word_pattern(items: &Vec<String>) -> (r: String)
    ensures
        r@ == whole_word(text::texts(items@)),
{
    let mut r = "\\b(?:".to_string();
    text::push_separated(&mut r, items, '|');
    r.append(")\\b");
    r
}

/// The pattern that finds a word in any of the given spellings.
pub fn pattern_of(spellings: &Vec<String>) -> (r: String)
    ensures
        r@ == spellings_pattern(text::texts(spellings@)),
{
    let ghost all = text::texts(spellings@);
    let ghost quoted = all.map_values(|s: Seq<char>| escaped(s));
    let mut set = TextSet::new();
    let mut i: usize = 0;
    proof {
        assert(set@.to_set() =~= quoted.take(0).to_set());
    }
    while i < spellings.len()
        invariant
            i <= spellings@.len(),
            all == text::texts(spellings@),
            quoted == all.map_values(|s: Seq<char>| escaped(s)),
            set@.to_set() == quoted.take(i as int).to_set(),
        decreases spellings@.len() - i,
    {
        let e = escape(spellings[i].as_str());
        let ghost before = quoted.take(i as int);
        set.insert(e.as_str());
        proof {
            let now = quoted.take(i + 1);
            assert(e@ == quoted[i as int]);
            assert(now =~= before.push(e@));
            assert forall|x: Seq<char>|
                now.to_set().contains(x) <==> before.to_set().insert(e@).contains(x) by {
                if before.contains(x) {
                    let k = choose|k: int| 0 <= k < before.len() && before[k] == x;
                    assert(now[k] == x);
                }
                assert(now[i as int] == e@);
            }
            assert(now.to_set() =~= before.to_set().insert(e@));
        }
        i = i + 1;
    }
    let items = set.items();
    proof {
        assert(quoted.take(i as int) =~= quoted);
        let s = set@;
        assert(order::ascending_texts(s) && s.to_set() == quoted.to_set());
        order::ascending_texts_unique(s, listing(quoted.to_set()));
    }
    whole_word_pattern(items)
}

/// Whether a text begins with an ASCII character.
pub open spec fn starts_ascii(s: Seq<char>) -> bool {
    s.len() > 0 && s[0] as u32 <= 0x7f
}

/// The pattern of a word, given its lower-case and upper-case forms and the
/// upper-case form of the first character of the former.
pub fn pattern_for(word: &str, lower: &str, upper: &str, first_upper: &str) -> (r: String)
    ensures
        r@ == spellings_pattern(seq![word@, lower@, upper@, titled(lower@, first_upper@)]),
{
    let chars = text::chars_of(lower);
    let title = if chars.len() > 0 && (chars[0] as u32) <= 0x7f {
        let rest = text::text_of(&chars, 1, chars.len());
        let mut t = first_upper.to_string();
        t.append(rest.as_str());
        proof {
            assert(rest@ =~= lower@.drop_first());
        }
        t
    } else {
        lower.to_string()
    };
    let mut all: Vec<String> = Vec::new();
    all.push(word.to_string());
    all.push(lower.to_string());
    all.push(upper.to_string());
    all.push(title);
    proof {
        assert(text::texts(all@) =~= seq![word@, lower@, upper@, titled(lower@, first_upper@)]);
    }
    pattern_of(&all)
}

/// The case-variant whole-word pattern of one query word.
pub fn word_pattern(word: &str) -> (r: String)
    ensures
        r@ == spellings_pattern(spellings(word@)),
{
    let lower = to_lowercase(word);
    let upper = to_uppercase(word);
    let chars = text::chars_of(lower.as_str());
    let first_upper = if chars.len() > 0 {
        let first = text::text_of(&chars, 0, 1);
        proof {
            assert(first@ =~= lower@.take(1));
        }
        to_uppercase(first.as_str())
    } else {
        String::new()
    };
    pattern_for(word, lower.as_str(), upper.as_str(), first_upper.as_str())
}

/// The pattern that finds any of the words, in their order.
pub open spec fn any_word(words: Seq<Seq<char>>) -> Seq<char> {
    whole_word(words.map_values(|w: Seq<char>| escaped(w)))
}

pub fn any_word_pattern(words: &Vec<String>) -> (r: String)
    ensures
        r@ == any_word(text::texts(words@)),
{
    let mut items: Vec<String> = Vec::new();
    let mut i: usize = 0;
    while i < words.len()
        invariant
            i <= words@.len(),
            items@.len() == i,
            forall|k: int| 0 <= k < i ==> (#[trigger] items@[k])@ == escaped(words@[k]@),
        decreases words@.len() - i,
    {
        items.push(escape(words[i].as_str()));
        i = i + 1;
    }
    proof {
        assert(text::texts(items@) =~= text::texts(words@).map_values(
            |w: Seq<char>| escaped(w),
        ));
    }
    whole_word_pattern(&items)
}

/// Words with more candidates than this tell nothing and are not looked for.
pub const MAX_WORD_CANDIDATES: usize = 50000;

/// Whether a word tells enough to be looked for, given how many candidates
/// its pattern has, if that is known.
pub open spec fn tells(count: Option<usize>) -> bool {
    count matches Some(c) && c <= MAX_WORD_CANDIDATES
}

/// The first `n` words that tell enough.
pub open spec fn telling(words: Seq<Seq<char>>, counts: Seq<Option<usize>>, n: nat) -> Seq<
    Seq<char>,
>
    decreases n,
{
    if n == 0 {
        Seq::empty()
    } else if tells(counts[n - 1]) {
        telling(words, counts, (n - 1) as nat).push(words[n - 1])
    } else {
        telling(words, counts, (n - 1) as nat)
    }
}

/// The words that tell enough, given the candidate count of each.
pub fn telling_words(words: &Vec<String>, counts: &Vec<Option<usize>>) -> (r: Vec<String>)
    requires
        words@.len() == counts@.len(),
    ensures
        text::texts(r@) == telling(text::texts(words@), counts@, words@.len()),
{
    let ghost all = text::texts(words@);
    let mut r: Vec<String> = Vec::new();
    let mut i: usize = 0;
    proof {
        assert(text::texts(r@) =~= telling(all, counts@, 0));
    }
    while i < words.len()
        invariant
            i <= words@.len() == counts@.len(),
            all == text::texts(words@),
            text::texts(r@) == telling(all, counts@, i as nat),
        decreases words@.len() - i,
    {
        let keep = match counts[i] {
            Some(c) => c <= MAX_WORD_CANDIDATES,
            None => false,
        };
        if keep {
            let ghost before = text::texts(r@);
            r.push(words[i].clone());
            proof {
                assert(text::texts(r@) =~= before.push(all[i as int]));
            }
        }
        i = i + 1;
    }
    r
}

/// Escaping keeps different texts apart.
pub proof fn escaping_is_injective(a: Seq<char>, b: Seq<char>)
    requires
        escaped(a) == escaped(b),
    ensures
        a == b,
    decreases a.len() + b.len(),
{
    if a.len() == 0 || b.len() == 0 {
        if a.len() > 0 {
            assert(escaped(a).len() > 0);
        }
        if b.len() > 0 {
            assert(escaped(b).len() > 0);
        }
        assert(a =~= b);
    } else {
        let ea = escaped(a.drop_last());
        let eb = escaped(b.drop_last());
        let x = escaped(a);
        assert(x.last() == a.last());
        assert(escaped(b).last() == b.last());
        if meta(a.last()) {
            assert(ea =~= x.drop_last().drop_last());
            assert(eb =~= x.drop_last().drop_last());
        } else {
            assert(ea =~= x.drop_last());
            assert(eb =~= x.drop_last());
        }
        escaping_is_injective(a.drop_last(), b.drop_last());
        assert(a =~= a.drop_last().push(a.last()));
        assert(b =~= b.drop_last().push(b.last()));
    }
}

proof fn lemma_new_words_long(words: Seq<Seq<char>>, keys: Seq<Seq<char>>, n: nat)
    ensures
        forall|i: int|
            0 <= i < new_words(words, keys, n).len() ==> long_enough(
                #[trigger] new_words(words, keys, n)[i],
            ),
    decreases n,
{
    if n > 0 {
        lemma_new_words_long(words, keys, (n - 1) as nat);
        let before = new_words(words, keys, (n - 1) as nat);
        let now = new_words(words, keys, n);
        assert forall|i: int| 0 <= i < now.len() implies long_enough(#[trigger] now[i]) by {
            if i < before.len() {
                assert(now[i] == before[i]);
            }
        }
    }
}

/// A question has at most eight words to look for, each of three characters
/// or more.
pub proof fn words_are_few_and_long(query: Seq<char>)
    ensures
        words_of(query).len() <= 8,
        forall|i: int| 0 <= i < words_of(query).len() ==> long_enough(#[trigger] words_of(query)[i]),
{
    let alnum = query.map_values(|c: char| alphanumeric(c));
    let words = pieces(query, alnum, query.len()).map_values(|p: Seq<char>| trimmed(p));
    let keys = words.map_values(|w: Seq<char>| lowercased(w));
    lemma_new_words_long(words, keys, words.len());
    let all = new_words(words, keys, words.len());
    assert forall|i: int| 0 <= i < words_of(query).len() implies long_enough(
        #[trigger] words_of(query)[i],
    ) by {
        assert(words_of(query)[i] == all[i]);
    }
}

} // verus!
