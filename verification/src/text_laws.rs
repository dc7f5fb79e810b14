//! What numbers, joined texts and lines promise.
use vstd::prelude::*;

use crate::text;

verus! {

/// The texts of strings stand as the strings do.
pub proof fn texts_stand_as_their_strings(v: Seq<String>, i: int)
    ensures
        text::texts(v).len() == v.len(),
        0 <= i < v.len() ==> text::texts(v)[i] == v[i]@,
{
}

/// The text of an optional string is that of the string, if there is one.
pub proof fn optional_texts_are_those_of_their_string(s: String)
    ensures
        text::text_option(Some(s)) == Some(s@),
        text::text_option(None) is None,
{
}

// ---- numbers ----

/// The digits below sixteen.
pub proof fn digits_are_the_usual_ones()
    ensures
        text::digit(0) == '0',
        text::digit(1) == '1',
        text::digit(2) == '2',
        text::digit(3) == '3',
        text::digit(4) == '4',
        text::digit(5) == '5',
        text::digit(6) == '6',
        text::digit(7) == '7',
        text::digit(8) == '8',
        text::digit(9) == '9',
        text::digit(10) == 'a',
        text::digit(11) == 'b',
        text::digit(12) == 'c',
        text::digit(13) == 'd',
        text::digit(14) == 'e',
        text::digit(15) == 'f',
{
}

/// What a digit counts.
pub open spec fn digit_value(c: char) -> int {
    if c as int >= 97 {
        c as int - 87
    } else {
        c as int - 48
    }
}

/// What digits count together, in the given base.
pub open spec fn value(s: Seq<char>, base: int) -> int
    decreases s.len(),
{
    if s.len() == 0 {
        0
    } else {
        value(s.drop_last(), base) * base + digit_value(s.last())
    }
}

/// A number in decimal is made of decimal digits, the first of which is no
/// zero unless it is the only one, and they count that number.
pub proof fn decimals_count_their_number(n: nat)
    ensures
        text::dec(n).len() > 0,
        forall|i: int| 0 <= i < text::dec(n).len() ==> '0' <= #[trigger] text::dec(n)[i] <= '9',
        text::dec(n)[0] == '0' ==> n == 0,
        text::dec(n).len() > 1 ==> n >= 10,
        value(text::dec(n), 10) == n,
    decreases n,
{
    let s = text::dec(n);
    if n < 10 {
        assert(s.drop_last() =~= Seq::<char>::empty());
        assert(value(s.drop_last(), 10) == 0);
    } else {
        decimals_count_their_number(n / 10);
        let t = text::dec(n / 10);
        assert(s.drop_last() =~= t);
        assert(s[0] == t[0]);
        assert forall|i: int| 0 <= i < s.len() implies '0' <= #[trigger] s[i] <= '9' by {
            if i < t.len() {
                assert(s[i] == t[i]);
            }
        }
    }
}

/// A number below zero is written as its magnitude behind a minus sign, any
/// other as it is.
pub proof fn minus_marks_negative_numbers(i: int)
    ensures
        i >= 0 ==> text::dec_int(i) == text::dec(i as nat),
        i < 0 ==> text::dec_int(i).len() == text::dec((-i) as nat).len() + 1,
        i < 0 ==> text::dec_int(i)[0] == '-',
        i < 0 ==> text::dec_int(i).skip(1) == text::dec((-i) as nat),
{
    if i < 0 {
        assert(text::dec_int(i).skip(1) =~= text::dec((-i) as nat));
    }
}

/// `b` multiplied with itself `k` times.
pub open spec fn power(b: nat, k: nat) -> nat
    decreases k,
{
    if k == 0 {
        1
    } else {
        b * power(b, (k - 1) as nat)
    }
}

/// A number in hexadecimal has as many digits as asked for, and they count
/// what is left of it when it is divided by that power of sixteen.
pub proof fn hexadecimals_count_their_number(n: nat, k: nat)
    ensures
        text::hex(n, k).len() == k,
        value(text::hex(n, k), 16) == n as int % power(16, k) as int,
        forall|i: int|
            0 <= i < k ==> ('0' <= #[trigger] text::hex(n, k)[i] <= '9' || 'a' <= text::hex(
                n,
                k,
            )[i] <= 'f'),
    decreases k,
{
    let s = text::hex(n, k);
    if k == 0 {
        assert(n as int % 1 == 0);
    } else {
        let j = (k - 1) as nat;
        hexadecimals_count_their_number(n / 16, j);
        let t = text::hex(n / 16, j);
        assert(s.drop_last() =~= t);
        lemma_power_positive(16, j);
        let p = power(16, j) as int;
        let x = n as int;
        assert(x % (16 * p) == 16 * ((x / 16) % p) + x % 16) by {
            vstd::arithmetic::div_mod::lemma_mod_breakdown(x, 16, p);
        }
        assert forall|i: int| 0 <= i < k implies ('0' <= #[trigger] s[i] <= '9' || 'a' <= s[i]
            <= 'f') by {
            if i < t.len() {
                assert(s[i] == t[i]);
            }
        }
    }
}

proof fn lemma_power_positive(b: nat, k: nat)
    requires
        b > 0,
    ensures
        power(b, k) > 0,
    decreases k,
{
    if k > 0 {
        lemma_power_positive(b, (k - 1) as nat);
        let p = power(b, (k - 1) as nat);
        assert(b * p > 0) by (nonlinear_arith)
            requires
                b > 0,
                p > 0,
        ;
    }
}

// ---- paths ----

/// A name below a directory: an absolute name stands for itself, and any other
/// follows the directory with exactly one slash between them.
pub proof fn names_follow_their_directory(dir: Seq<char>, name: Seq<char>)
    ensures
        name.len() > 0 && name[0] == '/' ==> text::joined(dir, name) == name,
        name.len() == 0 || name[0] != '/' ==> {
            let r = text::joined(dir, name);
            &&& dir.len() == 0 ==> r == name
            &&& dir.len() > 0 && dir.last() == '/' ==> r == dir + name
            &&& dir.len() > 0 && dir.last() != '/' ==> r == dir + seq!['/'] + name
        },
{
    assert(dir.push('/') + name =~= dir + seq!['/'] + name);
    if dir.len() == 0 {
        assert(dir + name =~= name);
    }
}

// ---- separators ----

/// One text stands alone; of two lists the texts of the second follow those of
/// the first behind a separator; and none gives nothing.
pub proof fn separators_stand_between(a: Seq<Seq<char>>, b: Seq<Seq<char>>, one: Seq<char>, sep: char)
    ensures
        text::separated(Seq::empty(), sep).len() == 0,
        text::separated(seq![one], sep) == one,
        a.len() > 0 && b.len() > 0 ==> text::separated(a + b, sep) == text::separated(a, sep)
            + seq![sep] + text::separated(b, sep),
    decreases b.len(),
{
    if a.len() > 0 && b.len() > 0 {
        let all = a + b;
        if b.len() == 1 {
            assert(all.drop_last() =~= a);
            assert(all.last() == b[0]);
            assert(text::separated(all, sep) =~= text::separated(a, sep) + seq![sep]
                + text::separated(b, sep));
        } else {
            separators_stand_between(a, b.drop_last(), one, sep);
            assert(all.drop_last() =~= a + b.drop_last());
            assert(all.last() == b.last());
            assert(text::separated(all, sep) =~= text::separated(a, sep) + seq![sep]
                + text::separated(b, sep));
        }
    }
}

/// Cutting a text at every separator and putting the parts together again
/// gives the text, and no part holds the separator.
pub proof fn parts_make_up_the_text(s: Seq<char>, sep: char)
    ensures
        text::parts(s, sep, s.len()).len() > 0,
        text::separated(text::parts(s, sep, s.len()), sep) == s,
        forall|i: int|
            0 <= i < text::parts(s, sep, s.len()).len() ==> !(#[trigger] text::parts(
                s,
                sep,
                s.len(),
            )[i]).contains(sep),
{
    lemma_parts(s, sep, s.len());
    assert(s.take(s.len() as int) =~= s);
}

proof fn lemma_parts(s: Seq<char>, sep: char, n: nat)
    requires
        n <= s.len(),
    ensures
        text::parts(s, sep, n).len() > 0,
        text::separated(text::parts(s, sep, n), sep) == s.take(n as int),
        forall|i: int|
            0 <= i < text::parts(s, sep, n).len() ==> !(#[trigger] text::parts(
                s,
                sep,
                n,
            )[i]).contains(sep),
    decreases n,
{
    let p = text::parts(s, sep, n);
    if n == 0 {
        assert(text::separated(p, sep) =~= s.take(0));
    } else {
        let before = text::parts(s, sep, (n - 1) as nat);
        lemma_parts(s, sep, (n - 1) as nat);
        let c = s[n - 1];
        assert(s.take(n as int) =~= s.take(n - 1).push(c));
        if c == sep {
            assert(p.drop_last() =~= before);
            assert(text::separated(p, sep) =~= text::separated(before, sep).push(sep));
            assert forall|i: int| 0 <= i < p.len() implies !(#[trigger] p[i]).contains(sep) by {
                if i < before.len() {
                    assert(p[i] == before[i]);
                }
            }
        } else {
            let head = before.drop_last();
            let last = before.last().push(c);
            assert(p.drop_last() =~= head);
            assert(p.last() == last);
            if head.len() == 0 {
                assert(text::separated(before, sep) == before[0]);
                assert(text::separated(p, sep) =~= s.take(n as int));
            } else {
                assert(text::separated(p, sep) =~= text::separated(before, sep).push(c));
            }
            assert forall|i: int| 0 <= i < p.len() implies !(#[trigger] p[i]).contains(sep) by {
                if i < head.len() {
                    assert(p[i] == before[i]);
                } else {
                    let old_last = before[before.len() - 1];
                    assert(!old_last.contains(sep));
                    assert forall|k: int| 0 <= k < last.len() implies last[k] != sep by {
                        if k < old_last.len() {
                            assert(old_last[k] == last[k]);
                        }
                    }
                }
            }
        }
    }
}

/// A separator cuts what stands before it from what stands behind it.
pub proof fn separators_cut(a: Seq<char>, b: Seq<char>, sep: char)
    ensures
        text::parts(a.push(sep) + b, sep, (a.len() + 1 + b.len()) as nat) == text::parts(
            a,
            sep,
            a.len(),
        ) + text::parts(b, sep, b.len()),
{
    lemma_cut(a, b, sep, b.len());
}

proof fn lemma_same_parts(s: Seq<char>, t: Seq<char>, sep: char, n: nat)
    requires
        n <= s.len(),
        n <= t.len(),
        forall|i: int| 0 <= i < n ==> s[i] == t[i],
    ensures
        text::parts(s, sep, n) == text::parts(t, sep, n),
    decreases n,
{
    if n > 0 {
        lemma_same_parts(s, t, sep, (n - 1) as nat);
    }
}

proof fn lemma_cut(a: Seq<char>, b: Seq<char>, sep: char, n: nat)
    requires
        n <= b.len(),
    ensures
        text::parts(a.push(sep) + b, sep, (a.len() + 1 + n) as nat) == text::parts(a, sep, a.len())
            + text::parts(b, sep, n),
    decreases n,
{
    let s = a.push(sep) + b;
    let m = (a.len() + 1 + n) as nat;
    let head = text::parts(a, sep, a.len());
    if n == 0 {
        lemma_same_parts(s, a, sep, a.len());
        assert(s[m - 1] == sep);
        assert(text::parts(s, sep, m) =~= head + text::parts(b, sep, 0));
    } else {
        lemma_cut(a, b, sep, (n - 1) as nat);
        lemma_parts(b, sep, (n - 1) as nat);
        let before = text::parts(b, sep, (n - 1) as nat);
        assert(s[m - 1] == b[n - 1]);
        assert((head + before).last() == before.last());
        assert((head + before).drop_last() =~= head + before.drop_last());
        assert(text::parts(s, sep, m) =~= head + text::parts(b, sep, n));
    }
}

/// A text that is filled up begins with itself, has at least the length asked
/// for, no more than it needs, and nothing but spaces behind it.
pub proof fn filling_adds_spaces(s: Seq<char>, n: nat)
    ensures
        text::filled(s, n).len() == (if s.len() >= n {
            s.len()
        } else {
            n
        }),
        s == text::filled(s, n).take(s.len() as int),
        forall|i: int|
            s.len() <= i < text::filled(s, n).len() ==> #[trigger] text::filled(s, n)[i] == ' ',
{
    assert(s =~= text::filled(s, n).take(s.len() as int));
}

// ---- lines ----

/// The lines of a text: up to its first line end stands the first line, without
/// one carriage return at its end; the others are those of what follows. What
/// has no line end is one line as it is, and nothing has none.
pub proof fn lines_end_at_line_ends(line: Seq<char>, rest: Seq<char>)
    requires
        !line.contains('\n'),
    ensures
        text::lines(Seq::empty()).len() == 0,
        line.len() > 0 ==> text::lines(line) == seq![line],
        line.len() > 0 && line.last() == '\r' ==> text::lines(line.push('\n') + rest) == seq![
            line.drop_last(),
        ] + text::lines(rest),
        line.len() == 0 || line.last() != '\r' ==> text::lines(line.push('\n') + rest) == seq![line]
            + text::lines(rest),
{
    let s = line.push('\n') + rest;
    lemma_scan_line(line, line, line.len());
    assert(line.take(line.len() as int) =~= line);
    if line.len() > 0 {
        assert(text::lines(line) =~= seq![line]);
    }
    lemma_scan_line(line, s, line.len());
    let first = text::chomped(line);
    lemma_scan_rest(line, rest, rest.len());
    let scan = text::line_scan(rest, rest.len());
    assert(s.len() == line.len() + 1 + rest.len());
    if scan.1.len() == 0 {
        assert(text::lines(s) =~= seq![first] + text::lines(rest));
    } else {
        assert(text::lines(s) =~= seq![first] + text::lines(rest));
    }
}

proof fn lemma_scan_line(line: Seq<char>, s: Seq<char>, n: nat)
    requires
        !line.contains('\n'),
        n <= line.len() <= s.len(),
        forall|i: int| 0 <= i < line.len() ==> s[i] == line[i],
    ensures
        text::line_scan(s, n).0.len() == 0,
        text::line_scan(s, n).1 == line.take(n as int),
    decreases n,
{
    if n > 0 {
        lemma_scan_line(line, s, (n - 1) as nat);
        assert(s[n - 1] == line[n - 1]);
        assert(line.contains(line[n - 1]));
        assert(line.take(n as int) =~= line.take(n - 1).push(line[n - 1]));
    } else {
        assert(line.take(0) =~= Seq::<char>::empty());
    }
}

proof fn lemma_scan_rest(line: Seq<char>, rest: Seq<char>, n: nat)
    requires
        !line.contains('\n'),
        n <= rest.len(),
    ensures
        ({
            let s = line.push('\n') + rest;
            let scan = text::line_scan(rest, n);
            text::line_scan(s, (line.len() + 1 + n) as nat) == (
                seq![text::chomped(line)] + scan.0,
                scan.1,
            )
        }),
    decreases n,
{
    let s = line.push('\n') + rest;
    let m = (line.len() + 1 + n) as nat;
    if n == 0 {
        lemma_scan_line(line, s, line.len());
        assert(line.take(line.len() as int) =~= line);
        assert(s[m - 1] == '\n');
        assert(text::line_scan(s, line.len()).0.push(text::chomped(line)) =~= seq![
            text::chomped(line),
        ] + text::line_scan(rest, 0).0);
    } else {
        lemma_scan_rest(line, rest, (n - 1) as nat);
        assert(s[m - 1] == rest[n - 1]);
        let scan = text::line_scan(rest, (n - 1) as nat);
        let head = seq![text::chomped(line)];
        assert((head + scan.0).push(text::chomped(scan.1)) =~= head + scan.0.push(
            text::chomped(scan.1),
        ));
    }
}

} // verus!
