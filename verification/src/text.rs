//! Text: characters, numbers in decimal and hexadecimal, and path joining.
use vstd::prelude::*;
use vstd::utf8;

verus! {

/// `String::push` appends one character.
pub assume_specification[ String::push ](s: &mut String, c: char)
    ensures
        final(s)@ == old(s)@.push(c),
;

/// The characters of each string.
pub open spec fn texts(v: Seq<String>) -> Seq<Seq<char>> {
    v.map_values(|s: String| s@)
}

/// The characters of an optional string.
pub open spec fn text_option(o: Option<String>) -> Option<Seq<char>> {
    match o {
        Some(s) => Some(s@),
        None => None,
    }
}

/// A copy of an optional string.
pub fn copied_option(o: &Option<String>) -> (r: Option<String>)
    ensures
        text_option(r) == text_option(*o),
{
    match o {
        Some(s) => Some(s.clone()),
        None => None,
    }
}

/// The character of a digit below sixteen, in lower case.
pub open spec fn digit(d: int) -> char {
    if d < 10 {
        (d + 48) as char
    } else {
        (d + 87) as char
    }
}

/// `n` in decimal.
pub open spec fn dec(n: nat) -> Seq<char>
    decreases n,
{
    if n < 10 {
        seq![digit(n as int)]
    } else {
        dec(n / 10).push(digit((n % 10) as int))
    }
}

/// `i` in decimal, with a minus sign below zero.
pub open spec fn dec_int(i: int) -> Seq<char> {
    if i < 0 {
        seq!['-'] + dec((-i) as nat)
    } else {
        dec(i as nat)
    }
}

/// The `k` low-order hexadecimal digits of `n`, in lower case.
pub open spec fn hex(n: nat, k: nat) -> Seq<char>
    decreases k,
{
    if k == 0 {
        Seq::empty()
    } else {
        hex(n / 16, (k - 1) as nat).push(digit((n % 16) as int))
    }
}

/// `name` below the directory `dir`; an absolute name stands for itself.
pub open spec fn joined(dir: Seq<char>, name: Seq<char>) -> Seq<char> {
    if name.len() > 0 && name[0] == '/' {
        name
    } else if dir.len() == 0 || dir.last() == '/' {
        dir + name
    } else {
        dir.push('/') + name
    }
}

/// The characters of `s`.
pub fn chars_of(s: &str) -> (v: Vec<char>)
    ensures
        v@ == s@,
{
    let mut v: Vec<char> = Vec::new();
    for c in it: s.chars()
        invariant
            v@ == it.seq().take(it.index()),
            it.seq() == s@,
    {
        v.push(c);
        proof {
            assert(v@ =~= s@.take(it.index() + 1));
        }
    }
    proof {
        assert(v@ =~= s@);
    }
    v
}

/// The text of the characters `from..to`.
pub fn text_of(chars: &Vec<char>, from: usize, to: usize) -> (s: String)
    requires
        from <= to <= chars@.len(),
    ensures
        s@ == chars@.subrange(from as int, to as int),
{
    let mut s = String::new();
    let mut i: usize = from;
    proof {
        assert(s@ =~= chars@.subrange(from as int, from as int));
    }
    while i < to
        invariant
            from <= i <= to <= chars@.len(),
            s@ == chars@.subrange(from as int, i as int),
        decreases to - i,
    {
        s.push(chars[i]);
        i = i + 1;
        proof {
            assert(s@ =~= chars@.subrange(from as int, i as int));
        }
    }
    s
}

/// Whether two texts are the same.
pub fn same_text(a: &str, b: &str) -> (r: bool)
    ensures
        r == (a@ == b@),
{
    let x = a.as_bytes();
    let y = b.as_bytes();
    proof {
        utf8::encode_utf8_decode_utf8(a@);
        utf8::encode_utf8_decode_utf8(b@);
    }
    if x.len() != y.len() {
        return false;
    }
    let mut i: usize = 0;
    while i < x.len()
        invariant
            i <= x@.len(),
            x@.len() == y@.len(),
            x@ == utf8::encode_utf8(a@),
            y@ == utf8::encode_utf8(b@),
            forall|k: int| 0 <= k < i ==> x@[k] == y@[k],
        decreases x@.len() - i,
    {
        if x[i] != y[i] {
            proof {
                assert(x@[i as int] != y@[i as int]);
            }
            return false;
        }
        i = i + 1;
    }
    proof {
        assert(x@ =~= y@);
    }
    true
}

/// The first character of `s`.
pub fn first_char(s: &str) -> (r: Option<char>)
    ensures
        match r {
            Some(c) => s@.len() > 0 && c == s@[0],
            None => s@.len() == 0,
        },
{
    if s.is_empty() {
        None
    } else {
        Some(s.get_char(0))
    }
}

/// The last character of `s`.
pub fn last_char(s: &str) -> (r: Option<char>)
    ensures
        match r {
            Some(c) => s@.len() > 0 && c == s@.last(),
            None => s@.len() == 0,
        },
{
    if s.is_empty() {
        None
    } else {
        let n: usize = s.unicode_len();
        Some(s.get_char(n - 1))
    }
}

/// Whether `c` occurs in `s`.
pub fn has_char(s: &str, c: char) -> (r: bool)
    ensures
        r == s@.contains(c),
{
    let chars = chars_of(s);
    let mut i: usize = 0;
    while i < chars.len()
        invariant
            i <= chars@.len(),
            chars@ == s@,
            forall|k: int| 0 <= k < i ==> chars@[k] != c,
        decreases chars@.len() - i,
    {
        if chars[i] == c {
            return true;
        }
        i = i + 1;
    }
    false
}

/// Whether `s` begins with `prefix`.
pub fn has_prefix(s: &str, prefix: &str) -> (r: bool)
    ensures
        r == prefix@.is_prefix_of(s@),
{
    let a = chars_of(s);
    let p = chars_of(prefix);
    if p.len() > a.len() {
        return false;
    }
    let mut i: usize = 0;
    while i < p.len()
        invariant
            i <= p@.len() <= a@.len(),
            a@ == s@,
            p@ == prefix@,
            forall|k: int| 0 <= k < i ==> a@[k] == p@[k],
        decreases p@.len() - i,
    {
        if a[i] != p[i] {
            proof {
                assert(s@.subrange(0, prefix@.len() as int)[i as int] == a@[i as int]);
            }
            return false;
        }
        i = i + 1;
    }
    proof {
        assert(s@.subrange(0, prefix@.len() as int) =~= prefix@);
    }
    true
}

fn digit_char(d: u8) -> (c: char)
    requires
        d < 16,
    ensures
        c == digit(d as int),
{
    if d < 10 {
        (d + 48) as char
    } else {
        (d + 87) as char
    }
}

/// Append `n` in decimal.
pub fn push_dec(out: &mut String, n: u64)
    ensures
        final(out)@ == old(out)@ + dec(n as nat),
    decreases n,
{
    if n < 10 {
        out.push(digit_char(n as u8));
        proof {
            assert(out@ =~= old(out)@ + dec(n as nat));
        }
    } else {
        push_dec(out, n / 10);
        out.push(digit_char((n % 10) as u8));
        proof {
            assert(out@ =~= old(out)@ + dec(n as nat));
        }
    }
}

/// Append `i` in decimal.
pub fn push_dec_int(out: &mut String, i: i64)
    ensures
        final(out)@ == old(out)@ + dec_int(i as int),
{
    if i < 0 {
        out.push('-');
        let magnitude: i128 = -(i as i128);
        push_dec(out, magnitude as u64);
        proof {
            assert(out@ =~= old(out)@ + dec_int(i as int));
        }
    } else {
        push_dec(out, i as u64);
    }
}

/// Append the `k` low-order hexadecimal digits of `n`.
pub fn push_hex(out: &mut String, n: u64, k: u32)
    ensures
        final(out)@ == old(out)@ + hex(n as nat, k as nat),
    decreases k,
{
    if k > 0 {
        push_hex(out, n / 16, k - 1);
        out.push(digit_char((n % 16) as u8));
    }
    proof {
        assert(out@ =~= old(out)@ + hex(n as nat, k as nat));
    }
}

/// `name` below the directory `dir`; an absolute name stands for itself.
pub fn join_path(dir: &str, name: &str) -> (r: String)
    ensures
        r@ == joined(dir@, name@),
{
    if first_char(name) == Some('/') {
        return name.to_string();
    }
    let mut r = dir.to_string();
    if !dir.is_empty() && last_char(dir) != Some('/') {
        r.push('/');
    }
    r.append(name);
    r
}

// ---- joining and lines ----

/// The texts with `sep` between them.
pub open spec fn separated(s: Seq<Seq<char>>, sep: char) -> Seq<char>
    decreases s.len(),
{
    if s.len() == 0 {
        Seq::empty()
    } else if s.len() == 1 {
        s[0]
    } else {
        separated(s.drop_last(), sep).push(sep) + s.last()
    }
}

/// Append the texts with `sep` between them.
pub fn push_separated(out: &mut String, items: &Vec<String>, sep: char)
    ensures
        final(out)@ == old(out)@ + separated(texts(items@), sep),
{
    let ghost all = texts(items@);
    let mut i: usize = 0;
    proof {
        assert(all.take(0) =~= Seq::<Seq<char>>::empty());
        assert(out@ + separated(all.take(0), sep) =~= out@);
    }
    while i < items.len()
        invariant
            i <= items@.len(),
            all == texts(items@),
            out@ == old(out)@ + separated(all.take(i as int), sep),
        decreases items@.len() - i,
    {
        if i > 0 {
            out.push(sep);
        }
        out.append(items[i].as_str());
        proof {
            let now = all.take(i + 1);
            assert(now.drop_last() =~= all.take(i as int));
            assert(now.last() == items@[i as int]@);
            if i == 0 {
                assert(all.take(0) =~= Seq::<Seq<char>>::empty());
            }
            assert(out@ =~= old(out)@ + separated(now, sep));
        }
        i = i + 1;
    }
    proof {
        assert(all.take(i as int) =~= all);
    }
}

/// The first `n` characters cut at every `sep`.
pub open spec fn parts(s: Seq<char>, sep: char, n: nat) -> Seq<Seq<char>>
    decreases n,
{
    if n == 0 {
        seq![Seq::empty()]
    } else {
        let before = parts(s, sep, (n - 1) as nat);
        if s[n - 1] == sep {
            before.push(Seq::empty())
        } else {
            before.drop_last().push(before.last().push(s[n - 1]))
        }
    }
}

/// A text cut at every `sep`.
pub fn split_on(s: &str, sep: char) -> (r: Vec<String>)
    ensures
        texts(r@) == parts(s@, sep, s@.len()),
{
    let chars = chars_of(s);
    let mut done: Vec<String> = Vec::new();
    let mut current = String::new();
    let mut i: usize = 0;
    proof {
        assert(texts(done@).push(current@) =~= seq![Seq::<char>::empty()]);
    }
    while i < chars.len()
        invariant
            i <= chars@.len(),
            chars@ == s@,
            texts(done@).push(current@) == parts(s@, sep, i as nat),
        decreases chars@.len() - i,
    {
        let ghost before = texts(done@);
        let ghost piece = current@;
        proof {
            assert(before.push(piece).drop_last() =~= before);
        }
        if chars[i] == sep {
            done.push(current);
            current = String::new();
            proof {
                assert(texts(done@) =~= before.push(piece));
            }
        } else {
            current.push(chars[i]);
        }
        i = i + 1;
    }
    let ghost before = texts(done@);
    let ghost piece = current@;
    done.push(current);
    proof {
        assert(texts(done@) =~= before.push(piece));
    }
    done
}

/// A text filled up with spaces to `n` characters.
pub open spec fn filled(s: Seq<char>, n: nat) -> Seq<char> {
    if s.len() >= n {
        s
    } else {
        s + Seq::new((n - s.len()) as nat, |i: int| ' ')
    }
}

/// Append `s`, filled up with spaces to `n` characters.
pub fn push_filled(out: &mut String, s: &str, n: usize)
    ensures
        final(out)@ == old(out)@ + filled(s@, n as nat),
{
    let ghost start = out@;
    out.append(s);
    let mut k: usize = s.unicode_len();
    let ghost len = k;
    proof {
        assert(out@ =~= start + s@ + Seq::new(0, |i: int| ' '));
    }
    while k < n
        invariant
            len == s@.len(),
            len <= k,
            k <= n || k == len,
            out@ == start + s@ + Seq::new((k - len) as nat, |i: int| ' '),
        decreases n - k,
    {
        out.push(' ');
        k = k + 1;
        proof {
            assert(out@ =~= start + s@ + Seq::new((k - len) as nat, |i: int| ' '));
        }
    }
    proof {
        assert(out@ =~= start + filled(s@, n as nat));
    }
}

/// A line without the carriage return at its end.
pub open spec fn chomped(line: Seq<char>) -> Seq<char> {
    if line.len() > 0 && line.last() == '\r' {
        line.drop_last()
    } else {
        line
    }
}

/// The lines that end within the first `n` characters, and what stands
/// behind the last of them.
pub open spec fn line_scan(s: Seq<char>, n: nat) -> (Seq<Seq<char>>, Seq<char>)
    decreases n,
{
    if n == 0 {
        (Seq::empty(), Seq::empty())
    } else {
        let before = line_scan(s, (n - 1) as nat);
        if s[n - 1] == '\n' {
            (before.0.push(chomped(before.1)), Seq::empty())
        } else {
            (before.0, before.1.push(s[n - 1]))
        }
    }
}

/// The lines of a text, without their ends; the last may lack its end.
pub open spec fn lines(s: Seq<char>) -> Seq<Seq<char>> {
    let scan = line_scan(s, s.len());
    if scan.1.len() == 0 {
        scan.0
    } else {
        scan.0.push(scan.1)
    }
}

/// The lines of a text, without their ends.
pub fn lines_of(s: &str) -> (r: Vec<String>)
    ensures
        texts(r@) == lines(s@),
{
    let chars = chars_of(s);
    let mut r: Vec<String> = Vec::new();
    let mut from: usize = 0;
    let mut i: usize = 0;
    proof {
        assert(texts(r@) =~= Seq::<Seq<char>>::empty());
        assert(chars@.subrange(0, 0) =~= Seq::<char>::empty());
    }
    while i < chars.len()
        invariant
            from <= i <= chars@.len(),
            chars@ == s@,
            line_scan(s@, i as nat) == (texts(r@), chars@.subrange(from as int, i as int)),
        decreases chars@.len() - i,
    {
        let ghost before = texts(r@);
        let ghost line = chars@.subrange(from as int, i as int);
        if chars[i] == '\n' {
            let to: usize = if i > from && chars[i - 1] == '\r' {
                i - 1
            } else {
                i
            };
            proof {
                if from < i {
                    assert(line.last() == chars@[i - 1]);
                }
                assert(chars@.subrange(from as int, to as int) =~= chomped(line));
            }
            r.push(text_of(&chars, from, to));
            proof {
                assert(texts(r@) =~= before.push(chomped(line)));
                assert(chars@.subrange(i + 1, i + 1) =~= Seq::<char>::empty());
            }
            from = i + 1;
        } else {
            proof {
                assert(chars@.subrange(from as int, i + 1) =~= line.push(chars@[i as int]));
            }
        }
        i = i + 1;
    }
    if from < chars.len() {
        let ghost before = texts(r@);
        let last = text_of(&chars, from, chars.len());
        let ghost view = last@;
        r.push(last);
        proof {
            assert(texts(r@) =~= before.push(view));
        }
    }
    r
}

// ---- lengths in bytes ----

/// How many bytes a character takes in UTF-8.
pub open spec fn width(c: char) -> nat {
    utf8::encode_scalar(c as u32).len()
}

/// How many bytes a text takes in UTF-8.
pub open spec fn byte_len(s: Seq<char>) -> nat {
    utf8::encode_utf8(s).len()
}

/// How many leading characters fit within `b` bytes.
pub open spec fn chars_within(s: Seq<char>, b: nat) -> nat
    decreases s.len(),
{
    if s.len() == 0 || width(s[0]) > b {
        0
    } else {
        1 + chars_within(s.drop_first(), (b - width(s[0])) as nat)
    }
}

/// How many leading characters it takes to fill `b` bytes; all if there are
/// fewer.
pub open spec fn chars_filling(s: Seq<char>, b: nat) -> nat
    decreases s.len(),
{
    if s.len() == 0 || b == 0 {
        0
    } else if width(s[0]) >= b {
        1
    } else {
        1 + chars_filling(s.drop_first(), (b - width(s[0])) as nat)
    }
}

/// How many bytes a character takes in UTF-8.
pub fn char_width(c: char) -> (n: usize)
    ensures
        n == width(c),
        1 <= n <= 4,
{
    proof {
        utf8::char_is_scalar(c);
    }
    let v: u32 = c as u32;
    if v <= 0x7f {
        1
    } else if v <= 0x7ff {
        2
    } else if v <= 0xffff {
        3
    } else {
        4
    }
}

/// How many characters behind `from` fit within `b` bytes.
pub fn count_within(chars: &Vec<char>, from: usize, b: usize) -> (n: usize)
    requires
        from <= chars@.len(),
    ensures
        n == chars_within(chars@.skip(from as int), b as nat),
        from + n <= chars@.len(),
{
    let mut at: usize = from;
    let mut left: usize = b;
    while at < chars.len()
        invariant
            from <= at <= chars@.len(),
            chars_within(chars@.skip(from as int), b as nat) == (at - from) + chars_within(
                chars@.skip(at as int),
                left as nat,
            ),
        decreases chars@.len() - at,
    {
        let w: usize = char_width(chars[at]);
        proof {
            assert(chars@.skip(at as int)[0] == chars@[at as int]);
            assert(chars@.skip(at as int).drop_first() =~= chars@.skip(at + 1));
        }
        if w > left {
            return at - from;
        }
        left = left - w;
        at = at + 1;
    }
    at - from
}

/// How many characters behind `from` it takes to fill `b` bytes.
pub fn count_filling(chars: &Vec<char>, from: usize, b: usize) -> (n: usize)
    requires
        from <= chars@.len(),
    ensures
        n == chars_filling(chars@.skip(from as int), b as nat),
        from + n <= chars@.len(),
{
    let mut at: usize = from;
    let mut left: usize = b;
    while at < chars.len() && left > 0
        invariant
            from <= at <= chars@.len(),
            chars_filling(chars@.skip(from as int), b as nat) == (at - from) + chars_filling(
                chars@.skip(at as int),
                left as nat,
            ),
        decreases chars@.len() - at,
    {
        let w: usize = char_width(chars[at]);
        proof {
            assert(chars@.skip(at as int)[0] == chars@[at as int]);
            assert(chars@.skip(at as int).drop_first() =~= chars@.skip(at + 1));
            assert(chars_filling(chars@.skip(at + 1), 0) == 0);
        }
        left = if w >= left {
            0
        } else {
            left - w
        };
        at = at + 1;
    }
    at - from
}

/// A text's bytes are those of its first character and of the rest.
pub proof fn lemma_byte_len(s: Seq<char>, k: int)
    requires
        0 <= k < s.len(),
    ensures
        byte_len(s.take(k + 1)) == byte_len(s.take(k)) + width(s[k]),
    decreases s.len(),
{
    if k == 0 {
        assert(s.take(1).drop_first() =~= Seq::<char>::empty());
        assert(s.take(0) =~= Seq::<char>::empty());
        assert(byte_len(Seq::<char>::empty()) == 0);
        assert(s.take(1)[0] == s[0]);
    } else {
        lemma_byte_len(s.drop_first(), k - 1);
        assert(s.take(k + 1).drop_first() =~= s.drop_first().take(k));
        assert(s.take(k).drop_first() =~= s.drop_first().take(k - 1));
    }
}

/// As many characters as fit take no more than `b` bytes, and one more would
/// take more.
pub proof fn chars_within_fit(s: Seq<char>, b: nat)
    ensures
        ({
            let k = chars_within(s, b);
            &&& k <= s.len()
            &&& byte_len(s.take(k as int)) <= b
            &&& k < s.len() ==> byte_len(s.take((k + 1) as int)) > b
        }),
    decreases s.len(),
{
    let k = chars_within(s, b);
    if s.len() == 0 || width(s[0]) > b {
        assert(s.take(0) =~= Seq::<char>::empty());
        assert(byte_len(Seq::<char>::empty()) == 0);
        if s.len() > 0 {
            lemma_byte_len(s, 0);
        }
    } else {
        let t = s.drop_first();
        chars_within_fit(t, (b - width(s[0])) as nat);
        assert(s.take(k as int)[0] == s[0]);
        assert(s.take(k as int).drop_first() =~= t.take(k - 1));
        if k < s.len() {
            assert(s.take((k + 1) as int)[0] == s[0]);
            assert(s.take((k + 1) as int).drop_first() =~= t.take(k as int));
        }
    }
}

/// As many characters as fill `b` bytes take at least that many, and one less
/// would take fewer; only where the text is shorter, all of it is taken.
pub proof fn chars_filling_fill(s: Seq<char>, b: nat)
    ensures
        ({
            let k = chars_filling(s, b);
            &&& k <= s.len()
            &&& byte_len(s.take(k as int)) >= b || k == s.len()
            &&& k > 0 ==> byte_len(s.take(k - 1)) < b
        }),
    decreases s.len(),
{
    let k = chars_filling(s, b);
    if s.len() > 0 && b > 0 {
        assert(s.take(0) =~= Seq::<char>::empty());
        assert(byte_len(Seq::<char>::empty()) == 0);
        if width(s[0]) >= b {
            lemma_byte_len(s, 0);
        } else {
            let t = s.drop_first();
            chars_filling_fill(t, (b - width(s[0])) as nat);
            assert(s.take(k as int)[0] == s[0]);
            assert(s.take(k as int).drop_first() =~= t.take(k - 1));
            if k > 1 {
                assert(s.take(k - 1)[0] == s[0]);
                assert(s.take(k - 1).drop_first() =~= t.take(k - 2));
            }
        }
    }
}

} // verus!
