//! Strings: taking them apart, comparing them, and writing numbers into them.

use vstd::prelude::*;

verus! {

/// `String::push`: the character is appended at the end, as its documentation
/// says.
pub assume_specification[ String::push ](s: &mut String, c: char)
    ensures
        final(s)@ == old(s)@.push(c),
;

/// `String::push_str`: the text is appended at the end, as its documentation
/// says.
pub assume_specification[ String::push_str ](s: &mut String, tail: &str)
    ensures
        final(s)@ == old(s)@ + tail@,
;

proof fn lemma_encoding_tells_apart(a: Seq<char>, b: Seq<char>)
    requires
        vstd::utf8::encode_utf8(a) == vstd::utf8::encode_utf8(b),
    ensures
        a == b,
{
    vstd::utf8::encode_utf8_decode_utf8(a);
    vstd::utf8::encode_utf8_decode_utf8(b);
}

/// Whether two strings hold the same text.
pub fn same(a: &str, b: &str) -> (r: bool)
    ensures
        r == (a@ == b@),
{
    let x: &[u8] = a.as_bytes();
    let y: &[u8] = b.as_bytes();
    if x.len() != y.len() {
        return false;
    }
    let mut i: usize = 0;
    while i < x.len()
        invariant
            i <= x@.len(),
            x@.len() == y@.len(),
            x@ == vstd::utf8::encode_utf8(a@),
            y@ == vstd::utf8::encode_utf8(b@),
            forall|j: int| 0 <= j < i ==> x@[j] == y@[j],
        decreases x@.len() - i,
    {
        if x[i] != y[i] {
            return false;
        }
        i = i + 1;
    }
    proof {
        assert(x@ =~= y@);
        lemma_encoding_tells_apart(a@, b@);
    }
    true
}

/// The characters of a string, one by one.
pub fn chars(s: &str) -> (out: Vec<char>)
    ensures
        out@ == s@,
{
    let mut out: Vec<char> = Vec::new();
    for c in it: s.chars()
        invariant
            it.seq() == s@,
            out@ == s@.take(it.index()),
    {
        out.push(c);
        assert(out@ =~= s@.take(it.index() + 1));
    }
    assert(out@ =~= s@);
    out
}

/// The string of some characters.
pub fn string_of(chars: &Vec<char>, from: usize, to: usize) -> (out: String)
    requires
        from <= to <= chars@.len(),
    ensures
        out@ == chars@.subrange(from as int, to as int),
{
    let mut out: String = String::new();
    let mut i: usize = from;
    assert(out@ =~= chars@.subrange(from as int, from as int));
    while i < to
        invariant
            from <= i <= to <= chars@.len(),
            out@ == chars@.subrange(from as int, i as int),
        decreases to - i,
    {
        out.push(chars[i]);
        i = i + 1;
        assert(out@ =~= chars@.subrange(from as int, i as int));
    }
    out
}

/// A decimal digit.
pub open spec fn digit(d: nat) -> char {
    ('0' as u32 + d) as char
}

/// A number in decimal, without leading zeros.
pub open spec fn decimal(n: nat) -> Seq<char>
    decreases n,
{
    if n < 10 {
        seq![digit(n)]
    } else {
        decimal(n / 10).push(digit(n % 10))
    }
}

fn digit_of(d: u64) -> (c: char)
    requires
        d < 10,
    ensures
        c == digit(d as nat),
{
    (48u8 + d as u8) as char
}

/// Appends a number in decimal.
pub fn put_decimal(out: &mut String, n: u64)
    ensures
        final(out)@ == old(out)@ + decimal(n as nat),
    decreases n,
{
    if n >= 10 {
        put_decimal(out, n / 10);
    }
    let ghost before = out@;
    out.push(digit_of(n % 10));
    assert(out@ =~= old(out)@ + decimal(n as nat));
}

/// The texts of a list of strings.
pub open spec fn texts(list: Seq<String>) -> Seq<Seq<char>> {
    list.map_values(|s: String| s@)
}

/// The texts of a list of string slices.
pub open spec fn strs(list: Seq<&str>) -> Seq<Seq<char>> {
    list.map_values(|s: &str| s@)
}

/// A list of texts in a row, with `sep` between each two.
pub open spec fn joined(parts: Seq<Seq<char>>, sep: Seq<char>) -> Seq<char>
    decreases parts.len(),
{
    if parts.len() == 0 {
        Seq::empty()
    } else if parts.len() == 1 {
        parts[0]
    } else {
        joined(parts.drop_last(), sep) + sep + parts.last()
    }
}

proof fn lemma_joined_step(parts: Seq<Seq<char>>, sep: Seq<char>, i: int)
    requires
        0 < i < parts.len(),
    ensures
        joined(parts.take(i + 1), sep) == joined(parts.take(i), sep) + sep + parts[i],
{
    assert(parts.take(i + 1).drop_last() =~= parts.take(i));
}

/// Joins strings.
pub fn join(parts: &Vec<String>, sep: &str) -> (out: String)
    ensures
        out@ == joined(texts(parts@), sep@),
{
    let mut out: String = String::new();
    let mut i: usize = 0;
    let ghost all = texts(parts@);
    assert(out@ =~= joined(all.take(0), sep@));
    while i < parts.len()
        invariant
            i <= parts@.len(),
            all == texts(parts@),
            out@ == joined(all.take(i as int), sep@),
        decreases parts@.len() - i,
    {
        if i > 0 {
            out.push_str(sep);
            proof {
                lemma_joined_step(all, sep@, i as int);
            }
        }
        out.push_str(parts[i].as_str());
        if i == 0 {
            assert(out@ =~= joined(all.take(1), sep@));
        }
        i = i + 1;
    }
    assert(all.take(i as int) =~= all);
    out
}

/// Joins string slices.
pub fn join_strs(parts: &[&str], sep: &str) -> (out: String)
    ensures
        out@ == joined(strs(parts@), sep@),
{
    let mut out: String = String::new();
    let mut i: usize = 0;
    let ghost all = strs(parts@);
    assert(out@ =~= joined(all.take(0), sep@));
    while i < parts.len()
        invariant
            i <= parts@.len(),
            all == strs(parts@),
            out@ == joined(all.take(i as int), sep@),
        decreases parts@.len() - i,
    {
        if i > 0 {
            out.push_str(sep);
            proof {
                lemma_joined_step(all, sep@, i as int);
            }
        }
        out.push_str(parts[i]);
        if i == 0 {
            assert(out@ =~= joined(all.take(1), sep@));
        }
        i = i + 1;
    }
    assert(all.take(i as int) =~= all);
    out
}

/// Whether a list of strings holds a text.
pub fn listed(list: &Vec<String>, s: &str) -> (r: bool)
    ensures
        r == texts(list@).contains(s@),
{
    let mut i: usize = 0;
    while i < list.len()
        invariant
            i <= list@.len(),
            forall|j: int| 0 <= j < i ==> texts(list@)[j] != s@,
        decreases list@.len() - i,
    {
        if same(list[i].as_str(), s) {
            assert(texts(list@)[i as int] == s@);
            return true;
        }
        i = i + 1;
    }
    false
}

/// A template with its marks filled in: `$a` stands for the first value, `$b` for
/// the second, and so on.
pub open spec fn filled(template: Seq<char>, values: Seq<Seq<char>>) -> Seq<char>
    decreases template.len(),
{
    if template.len() == 0 {
        Seq::empty()
    } else if template.len() > 1 && template[template.len() - 2] == '$' && mark(template.last(), values.len()) {
        filled(template.take(template.len() - 2), values) + values[template.last() as u32 - 97]
    } else {
        filled(template.drop_last(), values).push(template.last())
    }
}

/// Whether a letter names one of `n` values.
pub open spec fn mark(c: char, n: nat) -> bool {
    97 <= c as u32 && (c as u32) - 97 < n
}

proof fn lemma_filled_step(t: Seq<char>, i: int, values: Seq<Seq<char>>)
    requires
        0 < i <= t.len(),
    ensures
        i > 1 && t[i - 2] == '$' && mark(t[i - 1], values.len()) ==> filled(t.take(i), values) == filled(
            t.take(i - 2),
            values,
        ) + values[t[i - 1] as u32 - 97],
        !(i > 1 && t[i - 2] == '$' && mark(t[i - 1], values.len())) ==> filled(t.take(i), values)
            == filled(t.take(i - 1), values).push(t[i - 1]),
{
    assert(t.take(i).drop_last() =~= t.take(i - 1));
    if i > 1 {
        assert(t.take(i).take(i - 2) =~= t.take(i - 2));
    }
}

/// Fills a template in. At most 26 values are named.
pub fn fill(template: &str, values: &[&str]) -> (out: String)
    requires
        values@.len() <= 26,
    ensures
        out@ == filled(template@, strs(values@)),
{
    let t: Vec<char> = chars(template);
    let mut out: String = String::new();
    // Whether a dollar is held back, waiting to see what follows it.
    let mut held: bool = false;
    let mut i: usize = 0;
    let ghost vals = strs(values@);
    assert(out@ =~= filled(t@.take(0), vals));
    while i < t.len()
        invariant
            i <= t@.len(),
            t@ == template@,
            vals == strs(values@),
            values@.len() <= 26,
            held ==> i > 0 && t@[i - 1] == '$' && out@ == filled(t@.take(i - 1), vals) && filled(
                t@.take(i as int),
                vals,
            ) == out@.push('$'),
            !held ==> out@ == filled(t@.take(i as int), vals),
            !held && i > 0 ==> t@[i - 1] != '$',
        decreases t@.len() - i,
    {
        let c: char = t[i];
        proof {
            lemma_filled_step(t@, i + 1, vals);
            if i + 2 <= t@.len() {
                lemma_filled_step(t@, i + 2, vals);
            }
        }
        let k: u32 = c as u32;
        if held && k >= 97 && k - 97 < values.len() as u32 {
            let v: &str = values[(k - 97) as usize];
            out.push_str(v);
            held = false;
            assert(vals[k - 97] == v@);
            assert(mark(c, vals.len()));
        } else {
            if held {
                out.push('$');
            }
            if c == '$' {
                held = true;
                assert(!mark('$', vals.len()));
            } else {
                out.push(c);
                held = false;
            }
        }
        i = i + 1;
    }
    if held {
        out.push('$');
    }
    assert(t@.take(i as int) =~= t@);
    out
}

/// Three digits.
pub open spec fn triple(n: nat) -> Seq<char> {
    seq![digit(n / 100), digit(n / 10 % 10), digit(n % 10)]
}

/// A number in decimal with `sep` between each three digits, counted from the
/// right.
pub open spec fn grouped(n: nat, sep: char) -> Seq<char>
    decreases n,
{
    if n < 1000 {
        decimal(n)
    } else {
        grouped(n / 1000, sep).push(sep) + triple(n % 1000)
    }
}

/// Appends a number with its thousands separated.
pub fn put_grouped(out: &mut String, n: u64, sep: char)
    ensures
        final(out)@ == old(out)@ + grouped(n as nat, sep),
    decreases n,
{
    if n < 1000 {
        put_decimal(out, n);
    } else {
        put_grouped(out, n / 1000, sep);
        out.push(sep);
        let m: u64 = n % 1000;
        out.push(digit_of(m / 100));
        out.push(digit_of(m / 10 % 10));
        out.push(digit_of(m % 10));
        assert(out@ =~= old(out)@ + grouped(n as nat, sep));
    }
}

/// A number in decimal.
pub fn number(n: u64) -> (out: String)
    ensures
        out@ == decimal(n as nat),
{
    let mut out: String = String::new();
    put_decimal(&mut out, n);
    assert(out@ =~= decimal(n as nat));
    out
}

/// A number in decimal, with two digits at least.
pub open spec fn two_digits(n: nat) -> Seq<char> {
    if n < 10 {
        seq!['0'] + decimal(n)
    } else {
        decimal(n)
    }
}

/// A hexadecimal digit.
pub open spec fn hex_digit(d: nat) -> char {
    if d < 10 {
        digit(d)
    } else {
        ('a' as u32 + (d - 10)) as char
    }
}

/// A number in hexadecimal, without leading zeros, in lower case.
pub open spec fn hex(n: nat) -> Seq<char>
    decreases n,
{
    if n < 16 {
        seq![hex_digit(n)]
    } else {
        hex(n / 16).push(hex_digit(n % 16))
    }
}

/// Appends a number in hexadecimal.
pub fn put_hex(out: &mut String, n: u64)
    ensures
        final(out)@ == old(out)@ + hex(n as nat),
    decreases n,
{
    if n >= 16 {
        put_hex(out, n / 16);
    }
    let d: u64 = n % 16;
    if d < 10 {
        out.push(digit_of(d));
    } else {
        out.push((97u8 + (d - 10) as u8) as char);
    }
    assert(out@ =~= old(out)@ + hex(n as nat));
}

/// So many copies of a character.
pub open spec fn repeated(c: char, n: nat) -> Seq<char> {
    Seq::new(n, |i: int| c)
}

/// Appends a character so many times.
pub fn put_repeated(out: &mut String, c: char, n: usize)
    ensures
        final(out)@ == old(out)@ + repeated(c, n as nat),
{
    let mut i: usize = 0;
    assert(out@ =~= old(out)@ + repeated(c, 0));
    while i < n
        invariant
            i <= n,
            out@ == old(out)@ + repeated(c, i as nat),
        decreases n - i,
    {
        out.push(c);
        i = i + 1;
        assert(out@ =~= old(out)@ + repeated(c, i as nat));
    }
}

/// How many characters a text is short of a width.
pub open spec fn lacking(s: Seq<char>, width: nat) -> nat {
    if s.len() < width {
        (width - s.len()) as nat
    } else {
        0
    }
}

/// A text at the left of a column of the given width.
pub open spec fn left(s: Seq<char>, width: nat) -> Seq<char> {
    s + repeated(' ', lacking(s, width))
}

/// A text at the right of a column of the given width.
pub open spec fn right(s: Seq<char>, width: nat) -> Seq<char> {
    repeated(' ', lacking(s, width)) + s
}

/// Appends a text as a column, its characters at the left.
pub fn put_left(out: &mut String, s: &str, width: usize)
    ensures
        final(out)@ == old(out)@ + left(s@, width as nat),
{
    let n: usize = chars(s).len();
    out.push_str(s);
    if n < width {
        put_repeated(out, ' ', width - n);
    }
    assert(out@ =~= old(out)@ + left(s@, width as nat));
}

/// Appends a text as a column, its characters at the right.
pub fn put_right(out: &mut String, s: &str, width: usize)
    ensures
        final(out)@ == old(out)@ + right(s@, width as nat),
{
    let n: usize = chars(s).len();
    if n < width {
        put_repeated(out, ' ', width - n);
    }
    out.push_str(s);
    assert(out@ =~= old(out)@ + right(s@, width as nat));
}

/// White space, as Unicode lists it.
pub open spec fn white(c: char) -> bool {
    let u = c as u32;
    ||| 9 <= u <= 13
    ||| u == 0x20
    ||| u == 0x85
    ||| u == 0xa0
    ||| u == 0x1680
    ||| 0x2000 <= u <= 0x200a
    ||| u == 0x2028
    ||| u == 0x2029
    ||| u == 0x202f
    ||| u == 0x205f
    ||| u == 0x3000
}

/// Whether a character is white space.
pub fn is_white(c: char) -> (r: bool)
    ensures
        r == white(c),
{
    let u: u32 = c as u32;
    (9 <= u && u <= 13) || u == 0x20 || u == 0x85 || u == 0xa0 || u == 0x1680 || (0x2000 <= u && u <= 0x200a)
        || u == 0x2028 || u == 0x2029 || u == 0x202f || u == 0x205f || u == 0x3000
}

/// A text without the white space it begins with.
pub open spec fn trimmed_start(s: Seq<char>) -> Seq<char>
    decreases s.len(),
{
    if s.len() > 0 && white(s[0]) {
        trimmed_start(s.skip(1))
    } else {
        s
    }
}

/// A text without the white space it ends in.
pub open spec fn trimmed_end(s: Seq<char>) -> Seq<char>
    decreases s.len(),
{
    if s.len() > 0 && white(s.last()) {
        trimmed_end(s.drop_last())
    } else {
        s
    }
}

/// A text without the white space around it.
pub open spec fn trimmed(s: Seq<char>) -> Seq<char> {
    trimmed_end(trimmed_start(s))
}

/// Cuts the white space off the front of a text.
pub fn trim_start(s: &str) -> (out: String)
    ensures
        out@ == trimmed_start(s@),
{
    let t: Vec<char> = chars(s);
    let mut i: usize = 0;
    assert(t@.skip(0) =~= t@);
    while i < t.len() && is_white(t[i])
        invariant
            i <= t@.len(),
            t@ == s@,
            trimmed_start(t@) == trimmed_start(t@.skip(i as int)),
        decreases t@.len() - i,
    {
        assert(t@.skip(i as int).skip(1) =~= t@.skip(i + 1));
        i = i + 1;
    }
    assert(t@.subrange(i as int, t@.len() as int) =~= t@.skip(i as int));
    string_of(&t, i, t.len())
}

/// Cuts the white space off the end of a text.
pub fn trim_end(s: &str) -> (out: String)
    ensures
        out@ == trimmed_end(s@),
{
    let t: Vec<char> = chars(s);
    let mut n: usize = t.len();
    assert(t@.take(n as int) =~= t@);
    while n > 0 && is_white(t[n - 1])
        invariant
            n <= t@.len(),
            t@ == s@,
            trimmed_end(t@) == trimmed_end(t@.take(n as int)),
        decreases n,
    {
        assert(t@.take(n as int).drop_last() =~= t@.take(n - 1));
        n = n - 1;
    }
    assert(t@.subrange(0, n as int) =~= t@.take(n as int));
    string_of(&t, 0, n)
}

/// Cuts the white space off both ends of a text.
pub fn trim(s: &str) -> (out: String)
    ensures
        out@ == trimmed(s@),
{
    let front: String = trim_start(s);
    trim_end(front.as_str())
}

/// What stands between the separators: one piece more than there are separators.
pub open spec fn pieces(s: Seq<char>, sep: char) -> Seq<Seq<char>>
    decreases s.len(),
{
    if s.len() == 0 {
        seq![Seq::empty()]
    } else {
        let front = pieces(s.drop_last(), sep);
        if s.last() == sep {
            front.push(Seq::empty())
        } else {
            front.drop_last().push(front.last().push(s.last()))
        }
    }
}

/// Splits a text at every separator.
pub fn split(s: &str, sep: char) -> (out: Vec<String>)
    ensures
        texts(out@) == pieces(s@, sep),
{
    let t: Vec<char> = chars(s);
    let mut out: Vec<String> = Vec::new();
    let mut piece: String = String::new();
    let mut i: usize = 0;
    assert(texts(out@).push(piece@) =~= pieces(t@.take(0), sep)) by {
        assert(piece@ =~= Seq::empty());
    }
    while i < t.len()
        invariant
            i <= t@.len(),
            t@ == s@,
            texts(out@).push(piece@) == pieces(t@.take(i as int), sep),
        decreases t@.len() - i,
    {
        let c: char = t[i];
        let ghost front = pieces(t@.take(i as int), sep);
        let ghost before = out@;
        assert(t@.take(i + 1).drop_last() =~= t@.take(i as int));
        assert(front.last() == piece@);
        assert(front.drop_last() =~= texts(before));
        if c == sep {
            out.push(piece);
            piece = String::new();
            assert(texts(out@) =~= front);
            assert(piece@ =~= Seq::empty());
        } else {
            piece.push(c);
            assert(texts(out@).push(piece@) =~= pieces(t@.take(i + 1), sep));
        }
        i = i + 1;
    }
    assert(t@.take(i as int) =~= t@);
    let ghost before = out@;
    let ghost rest = piece@;
    out.push(piece);
    assert(texts(out@) =~= texts(before).push(rest));
    out
}

/// Whether a text stands in another one at a place.
pub open spec fn stands_at(s: Seq<char>, part: Seq<char>, at: int) -> bool {
    0 <= at && at + part.len() <= s.len() && s.subrange(at, at + part.len()) == part
}

/// The first place at or after `from` where a text stands in another one.
pub open spec fn place(s: Seq<char>, part: Seq<char>, from: int) -> Option<int>
    decreases s.len() + 1 - from,
{
    if from + part.len() > s.len() {
        None
    } else if stands_at(s, part, from) {
        Some(from)
    } else {
        place(s, part, from + 1)
    }
}

/// Whether the characters of `part` stand in `s` at `at`.
fn matches_at(s: &Vec<char>, part: &Vec<char>, at: usize) -> (r: bool)
    requires
        at + part@.len() <= s@.len(),
    ensures
        r == stands_at(s@, part@, at as int),
{
    let mut i: usize = 0;
    let end: usize = s.len();
    while i < part.len()
        invariant
            i <= part@.len(),
            at + part@.len() <= s@.len(),
            end == s@.len(),
            forall|j: int| 0 <= j < i ==> s@[at + j] == part@[j],
        decreases part@.len() - i,
    {
        if s[at + i] != part[i] {
            assert(s@.subrange(at as int, at + part@.len())[i as int] != part@[i as int]);
            return false;
        }
        i = i + 1;
    }
    assert(s@.subrange(at as int, at + part@.len()) =~= part@);
    true
}

/// Finds a text in another one.
pub fn find(s: &Vec<char>, part: &str) -> (r: Option<usize>)
    ensures
        match r {
            Some(i) => place(s@, part@, 0) == Some(i as int) && stands_at(s@, part@, i as int),
            None => place(s@, part@, 0) is None,
        },
{
    let p: Vec<char> = chars(part);
    if s.len() < p.len() {
        return None;
    }
    if p.len() == 0 {
        assert(s@.subrange(0, 0) =~= part@);
        return Some(0);
    }
    let mut i: usize = 0;
    let last: usize = s.len() - p.len();
    while i <= last
        invariant
            p@ == part@,
            last == s@.len() - p@.len(),
            p@.len() > 0,
            last < usize::MAX,
            p@.len() <= s@.len(),
            i <= s@.len() - p@.len() + 1,
            place(s@, part@, 0) == place(s@, part@, i as int),
        decreases s@.len() - p@.len() + 1 - i,
    {
        if matches_at(s, &p, i) {
            return Some(i);
        }
        i = i + 1;
    }
    None
}

/// What stands in front of the first `part`, and what follows it.
pub open spec fn parted(s: Seq<char>, part: Seq<char>) -> Option<(Seq<char>, Seq<char>)> {
    match place(s, part, 0) {
        Some(i) => Some((s.take(i), s.skip(i + part.len()))),
        None => None,
    }
}

/// Splits a text at the first `part`.
pub fn split_once(s: &str, part: &str) -> (r: Option<(String, String)>)
    ensures
        match r {
            Some(p) => parted(s@, part@) == Some((p.0@, p.1@)),
            None => parted(s@, part@) is None,
        },
{
    let t: Vec<char> = chars(s);
    let n: usize = chars(part).len();
    match find(&t, part) {
        Some(i) => {
            let end: usize = t.len();
            assert(i + n <= end);
            let front: String = string_of(&t, 0, i);
            let back: String = string_of(&t, i + n, t.len());
            assert(front@ =~= s@.take(i as int));
            assert(back@ =~= s@.skip(i + n));
            Some((front, back))
        },
        None => None,
    }
}

/// Whether a text stands anywhere in another one.
pub fn contains(s: &str, part: &str) -> (r: bool)
    ensures
        r == (place(s@, part@, 0) is Some),
{
    find(&chars(s), part).is_some()
}

/// A finding is a place, and no finding means that there is none.
pub proof fn law_a_place_is_the_first(s: Seq<char>, part: Seq<char>, from: int)
    requires
        0 <= from,
    ensures
        match place(s, part, from) {
            Some(i) => from <= i && stands_at(s, part, i) && forall|j: int|
                from <= j < i ==> !stands_at(s, part, j),
            None => forall|j: int| from <= j ==> !stands_at(s, part, j),
        },
    decreases s.len() + 1 - from,
{
    if from + part.len() <= s.len() && !stands_at(s, part, from) {
        law_a_place_is_the_first(s, part, from + 1);
    }
}

/// What is left of a text that begins with `front`.
pub open spec fn after(s: Seq<char>, front: Seq<char>) -> Option<Seq<char>> {
    if s.len() >= front.len() && s.take(front.len() as int) == front {
        Some(s.skip(front.len() as int))
    } else {
        None
    }
}

/// What is left of a text that ends in `back`.
pub open spec fn before(s: Seq<char>, back: Seq<char>) -> Option<Seq<char>> {
    if s.len() >= back.len() && s.skip(s.len() - back.len()) == back {
        Some(s.take(s.len() - back.len()))
    } else {
        None
    }
}

/// The text of an optional string.
pub open spec fn text_of(s: Option<String>) -> Option<Seq<char>> {
    match s {
        Some(t) => Some(t@),
        None => None,
    }
}

/// Cuts `front` off a text that begins with it.
pub fn strip_prefix(s: &str, front: &str) -> (r: Option<String>)
    ensures
        text_of(r) == after(s@, front@),
{
    let t: Vec<char> = chars(s);
    let p: Vec<char> = chars(front);
    if t.len() < p.len() {
        return None;
    }
    let hit: bool = matches_at(&t, &p, 0);
    assert(s@.subrange(0, p@.len() as int) =~= s@.take(p@.len() as int));
    if hit {
        assert(t@.subrange(p@.len() as int, t@.len() as int) =~= s@.skip(p@.len() as int));
        Some(string_of(&t, p.len(), t.len()))
    } else {
        None
    }
}

/// Cuts `back` off a text that ends in it.
pub fn strip_suffix(s: &str, back: &str) -> (r: Option<String>)
    ensures
        text_of(r) == before(s@, back@),
{
    let t: Vec<char> = chars(s);
    let p: Vec<char> = chars(back);
    if t.len() < p.len() {
        return None;
    }
    let n: usize = t.len() - p.len();
    let hit: bool = matches_at(&t, &p, n);
    assert(s@.subrange(n as int, t@.len() as int) =~= s@.skip(n as int));
    if hit {
        assert(t@.subrange(0, n as int) =~= s@.take(n as int));
        Some(string_of(&t, 0, n))
    } else {
        None
    }
}

/// Whether a text begins with a character.
pub fn begins_with(s: &str, c: char) -> (r: bool)
    ensures
        r == (s@.len() > 0 && s@[0] == c),
{
    let t: Vec<char> = chars(s);
    t.len() > 0 && t[0] == c
}

/// A text with every `from` replaced by `to`.
pub open spec fn replaced(s: Seq<char>, from: char, to: Seq<char>) -> Seq<char>
    decreases s.len(),
{
    if s.len() == 0 {
        Seq::empty()
    } else if s.last() == from {
        replaced(s.drop_last(), from, to) + to
    } else {
        replaced(s.drop_last(), from, to).push(s.last())
    }
}

/// Replaces every occurrence of a character.
pub fn replace(s: &str, from: char, to: &str) -> (out: String)
    ensures
        out@ == replaced(s@, from, to@),
{
    let t: Vec<char> = chars(s);
    let mut out: String = String::new();
    let mut i: usize = 0;
    assert(out@ =~= replaced(t@.take(0), from, to@));
    while i < t.len()
        invariant
            i <= t@.len(),
            t@ == s@,
            out@ == replaced(t@.take(i as int), from, to@),
        decreases t@.len() - i,
    {
        let c: char = t[i];
        assert(t@.take(i + 1).drop_last() =~= t@.take(i as int));
        if c == from {
            out.push_str(to);
        } else {
            out.push(c);
        }
        i = i + 1;
    }
    assert(t@.take(i as int) =~= t@);
    out
}

pub open spec fn is_digit(c: char) -> bool {
    '0' <= c <= '9'
}

/// The number that digits spell.
pub open spec fn spelled(s: Seq<char>) -> nat
    decreases s.len(),
{
    if s.len() == 0 {
        0
    } else {
        spelled(s.drop_last()) * 10 + (s.last() as nat - '0' as nat) as nat
    }
}

/// The digits of a number as it may be written: a plus sign in front is allowed.
pub open spec fn unsigned_part(s: Seq<char>) -> Seq<char> {
    if s.len() > 1 && s[0] == '+' {
        s.skip(1)
    } else {
        s
    }
}

/// The number a text spells, if it is one and at most `max`.
pub open spec fn parsed(s: Seq<char>, max: nat) -> Option<nat> {
    let d = unsigned_part(s);
    if d.len() > 0 && (forall|i: int| 0 <= i < d.len() ==> is_digit(#[trigger] d[i])) && spelled(d) <= max {
        Some(spelled(d))
    } else {
        None
    }
}

proof fn lemma_spelled_grows(s: Seq<char>, m: int, n: int)
    requires
        0 <= m <= n <= s.len(),
    ensures
        spelled(s.take(m)) <= spelled(s.take(n)),
    decreases n,
{
    if m < n {
        lemma_spelled_grows(s, m, n - 1);
        assert(s.take(n).drop_last() =~= s.take(n - 1));
    }
}

/// Reads a number that is at most `max`.
pub fn parse(s: &str, max: u64) -> (r: Option<u64>)
    ensures
        match r {
            Some(n) => parsed(s@, max as nat) == Some(n as nat),
            None => parsed(s@, max as nat) is None,
        },
{
    let t: Vec<char> = chars(s);
    let start: usize = if t.len() > 1 && t[0] == '+' {
        1
    } else {
        0
    };
    let ghost d = unsigned_part(s@);
    assert(d =~= t@.skip(start as int));
    if t.len() == 0 {
        return None;
    }
    let mut v: u64 = 0;
    let mut i: usize = start;
    assert(d.take(0) =~= Seq::empty());
    while i < t.len()
        invariant
            start <= i <= t@.len(),
            start <= 1,
            start < t@.len(),
            t@ == s@,
            d == unsigned_part(s@),
            d == t@.skip(start as int),
            v == spelled(d.take(i - start)),
            v <= max,
            forall|j: int| 0 <= j < i - start ==> is_digit(#[trigger] d[j]),
        decreases t@.len() - i,
    {
        let c: char = t[i];
        assert(d[i - start] == c);
        if !('0' <= c && c <= '9') {
            return None;
        }
        let digit: u64 = (c as u32 - 48u32) as u64;
        proof {
            assert(d.take(i + 1 - start).drop_last() =~= d.take(i - start));
            lemma_spelled_grows(d, i + 1 - start, d.len() as int);
            assert(d.take(d.len() as int) =~= d);
        }
        if digit > max || v > (max - digit) / 10 {
            assert(v * 10 + digit > max) by (nonlinear_arith)
                requires
                    digit > max || v > (max - digit) / 10,
                    v >= 0,
            ;
            return None;
        }
        v = v * 10 + digit;
        i = i + 1;
    }
    assert(d.take(d.len() as int) =~= d);
    Some(v)
}

/// The words of a text: what stands between its white space.
pub open spec fn first_word(s: Seq<char>) -> Seq<char>
    decreases s.len(),
{
    let t = trimmed_start(s);
    until_white(t, 0)
}

/// What stands in front of the first white space at or after `at`.
pub open spec fn until_white(s: Seq<char>, at: int) -> Seq<char>
    decreases s.len() - at,
{
    if at >= s.len() || white(s[at]) {
        s.take(if at < s.len() { at } else { s.len() as int })
    } else {
        until_white(s, at + 1)
    }
}

/// The first word of a text, and what follows it.
pub fn next_word(s: &str) -> (r: (String, String))
    ensures
        r.0@ == first_word(s@),
        r.1@ == trimmed_start(s@).skip(first_word(s@).len() as int),
{
    let front: String = trim_start(s);
    let t: Vec<char> = chars(front.as_str());
    let mut i: usize = 0;
    while i < t.len() && !is_white(t[i])
        invariant
            i <= t@.len(),
            until_white(t@, 0) == until_white(t@, i as int),
        decreases t@.len() - i,
    {
        i = i + 1;
    }
    let word: String = string_of(&t, 0, i);
    let rest: String = string_of(&t, i, t.len());
    assert(word@ =~= t@.take(i as int));
    assert(rest@ =~= t@.skip(i as int));
    (word, rest)
}

/// A letter of the ASCII alphabet in lower case; other characters as they are.
pub open spec fn lower(c: char) -> char {
    if 'A' <= c <= 'Z' {
        ((c as u32 + 32) as u32) as char
    } else {
        c
    }
}

/// A text with its ASCII letters in lower case.
pub fn to_lower(s: &str) -> (out: String)
    ensures
        out@ == s@.map_values(|c: char| lower(c)),
{
    let t: Vec<char> = chars(s);
    let mut out: String = String::new();
    let mut i: usize = 0;
    while i < t.len()
        invariant
            i <= t@.len(),
            t@ == s@,
            out@ =~= t@.take(i as int).map_values(|c: char| lower(c)),
        decreases t@.len() - i,
    {
        let c: char = t[i];
        if 'A' <= c && c <= 'Z' {
            out.push((c as u8 + 32u8) as char);
        } else {
            out.push(c);
        }
        i = i + 1;
        assert(t@.take(i as int) =~= t@.take(i - 1).push(t@[i - 1]));
    }
    assert(t@.take(i as int) =~= t@);
    out
}

proof fn lemma_decimal(n: nat)
    ensures
        decimal(n).len() > 0,
        forall|i: int| 0 <= i < decimal(n).len() ==> is_digit(#[trigger] decimal(n)[i]),
        spelled(decimal(n)) == n,
    decreases n,
{
    if n < 10 {
        assert(decimal(n).drop_last() =~= Seq::empty());
        assert(spelled(Seq::<char>::empty()) == 0);
    } else {
        lemma_decimal(n / 10);
        let front = decimal(n / 10);
        assert(decimal(n).drop_last() =~= front);
        assert forall|i: int| 0 <= i < decimal(n).len() implies is_digit(#[trigger] decimal(n)[i]) by {
            if i < front.len() {
                assert(decimal(n)[i] == front[i]);
            }
        }
    }
}

/// A number that is written down reads back as the same number.
pub proof fn law_numbers_read_back(n: nat, max: nat)
    requires
        n <= max,
    ensures
        parsed(decimal(n), max) == Some(n),
{
    lemma_decimal(n);
    assert(is_digit(decimal(n)[0]));
    assert(unsigned_part(decimal(n)) == decimal(n));
}

/// A number in decimal is made of digits.
pub proof fn law_numbers_are_digits(n: nat)
    ensures
        forall|i: int| 0 <= i < decimal(n).len() ==> is_digit(#[trigger] decimal(n)[i]),
{
    lemma_decimal(n);
}

/// **Splitting a text and joining what stood between gives the text back**, and no piece
/// holds a separator.
pub proof fn law_pieces_join_back(s: Seq<char>, sep: char)
    ensures
        pieces(s, sep).len() > 0,
        joined(pieces(s, sep), seq![sep]) == s,
        forall|i: int| 0 <= i < pieces(s, sep).len() ==> !(#[trigger] pieces(s, sep)[i]).contains(sep),
    decreases s.len(),
{
    let all = pieces(s, sep);
    if s.len() == 0 {
        assert(joined(all, seq![sep]) =~= s);
    } else {
        let rest = s.drop_last();
        let front = pieces(rest, sep);
        law_pieces_join_back(rest, sep);
        assert(s =~= rest.push(s.last()));
        assert forall|i: int| 0 <= i < all.len() implies !(#[trigger] all[i]).contains(sep) by {
            if i < front.len() - 1 || (i < front.len() && s.last() == sep) {
                assert(all[i] == front[i]);
            } else if s.last() != sep {
                assert(!front[front.len() - 1].contains(sep));
                let grown = front.last().push(s.last());
                if grown.contains(sep) {
                    let k = choose|k: int| 0 <= k < grown.len() && grown[k] == sep;
                    assert(front.last()[k] == sep);
                }
            }
        }
        if s.last() == sep {
            assert(all.drop_last() =~= front);
            assert(joined(all, seq![sep]) =~= s);
        } else {
            assert(all.drop_last() =~= front.drop_last());
            if front.len() == 1 {
                assert(joined(front, seq![sep]) == front[0]);
                assert(joined(all, seq![sep]) =~= s);
            } else {
                assert(joined(front, seq![sep]) == joined(front.drop_last(), seq![sep]) + seq![sep] + front.last());
                assert(joined(all, seq![sep]) =~= s);
            }
        }
    }
}

proof fn lemma_trimmed_start(s: Seq<char>)
    ensures
        trimmed_start(s).len() <= s.len(),
        trimmed_start(s) == s.skip(s.len() - trimmed_start(s).len()),
        forall|i: int| 0 <= i < s.len() - trimmed_start(s).len() ==> white(#[trigger] s[i]),
        trimmed_start(s).len() > 0 ==> !white(trimmed_start(s)[0]),
    decreases s.len(),
{
    if s.len() > 0 && white(s[0]) {
        let rest = s.skip(1);
        lemma_trimmed_start(rest);
        let n = trimmed_start(s).len();
        assert(trimmed_start(s) =~= s.skip(s.len() - n));
        assert forall|i: int| 0 <= i < s.len() - n implies white(#[trigger] s[i]) by {
            if i > 0 {
                assert(white(rest[i - 1]));
            }
        }
    } else {
        assert(s.skip(0) =~= s);
    }
}

proof fn lemma_trimmed_end(s: Seq<char>)
    ensures
        trimmed_end(s).len() <= s.len(),
        trimmed_end(s) == s.take(trimmed_end(s).len() as int),
        forall|i: int| trimmed_end(s).len() <= i < s.len() ==> white(#[trigger] s[i]),
        trimmed_end(s).len() > 0 ==> !white(trimmed_end(s).last()),
    decreases s.len(),
{
    if s.len() > 0 && white(s.last()) {
        let rest = s.drop_last();
        lemma_trimmed_end(rest);
        let n = trimmed_end(s).len();
        assert(trimmed_end(s) =~= s.take(n as int));
        assert forall|i: int| n <= i < s.len() implies white(#[trigger] s[i]) by {
            if i < s.len() - 1 {
                assert(white(rest[i]));
            }
        }
    } else {
        assert(s.take(s.len() as int) =~= s);
    }
}

/// **Trimming takes white space off both ends and nothing else**: what is left stands in
/// the text between white space, and neither begins nor ends in any.
pub proof fn law_trimming_takes_white_space_only(s: Seq<char>)
    ensures
        exists|from: int, to: int|
            0 <= from <= to <= s.len() && trimmed(s) == #[trigger] s.subrange(from, to) && (forall|i: int|
                0 <= i < from ==> white(#[trigger] s[i])) && (forall|i: int| to <= i < s.len() ==> white(#[trigger] s[i])),
        trimmed(s).len() > 0 ==> !white(trimmed(s)[0]) && !white(trimmed(s).last()),
{
    let t = trimmed_start(s);
    lemma_trimmed_start(s);
    lemma_trimmed_end(t);
    let from = s.len() - t.len();
    let to = from + trimmed(s).len();
    assert(trimmed(s) =~= s.subrange(from, to));
    assert forall|i: int| to <= i < s.len() implies white(#[trigger] s[i]) by {
        assert(white(t[i - from]));
    }
}

/// **Replacing goes character by character**: each one that is named gives way to the
/// text that is put for it, and every other one stays.
pub proof fn law_replacing_goes_by_characters(s: Seq<char>, t: Seq<char>, c: char, from: char, to: Seq<char>)
    ensures
        replaced(s + t, from, to) == replaced(s, from, to) + replaced(t, from, to),
        replaced(seq![c], from, to) == if c == from { to } else { seq![c] },
        !s.contains(from) ==> replaced(s, from, to) == s,
    decreases s.len() + t.len(),
{
    assert(seq![c].drop_last() =~= Seq::empty());
    assert(replaced(Seq::empty(), from, to) + to =~= to);
    assert(replaced(seq![c], from, to) =~= if c == from { to } else { seq![c] });
    if t.len() > 0 {
        law_replacing_goes_by_characters(s, t.drop_last(), c, from, to);
        assert((s + t).drop_last() =~= s + t.drop_last());
        assert(replaced(s + t, from, to) =~= replaced(s, from, to) + replaced(t, from, to));
    } else {
        assert(s + t =~= s);
        assert(replaced(s, from, to) + replaced(t, from, to) =~= replaced(s, from, to));
        if s.len() > 0 && !s.contains(from) {
            assert(s.last() == s[s.len() - 1]);
            let rest = s.drop_last();
            if rest.contains(from) {
                let k = choose|k: int| 0 <= k < rest.len() && rest[k] == from;
                assert(s[k] == from);
            }
            law_replacing_goes_by_characters(rest, t, c, from, to);
            assert(replaced(s, from, to) =~= s);
        }
    }
}

/// **A column is as wide as is asked for, or as its text**, which stands at one end of it
/// with nothing but spaces at the other.
pub proof fn law_columns_are_filled_up(s: Seq<char>, width: nat, i: int)
    ensures
        left(s, width).len() == if s.len() < width { width } else { s.len() },
        right(s, width).len() == left(s, width).len(),
        left(s, width).take(s.len() as int) == s,
        right(s, width).skip(right(s, width).len() - s.len()) == s,
        s.len() <= i < width ==> left(s, width)[i] == ' ',
        0 <= i < width - s.len() ==> right(s, width)[i] == ' ',
{
    assert(left(s, width).take(s.len() as int) =~= s);
    assert(right(s, width).skip(right(s, width).len() - s.len()) =~= s);
}

/// The number that hexadecimal digits spell.
pub open spec fn hex_value(s: Seq<char>) -> nat
    decreases s.len(),
{
    if s.len() == 0 {
        0
    } else {
        let c = s.last();
        hex_value(s.drop_last()) * 16 + (if is_digit(c) {
            (c as nat - '0' as nat) as nat
        } else {
            (c as nat - 'a' as nat + 10) as nat
        })
    }
}

/// A number that is written in hexadecimal reads back as the same number, and does not
/// begin with a zero unless it is one.
pub proof fn law_hexadecimal_reads_back(n: nat)
    ensures
        hex_value(hex(n)) == n,
        hex(n).len() > 0,
        hex(n)[0] == '0' ==> n == 0,
    decreases n,
{
    if n < 16 {
        assert(hex(n).drop_last() =~= Seq::empty());
        assert(hex_value(Seq::empty()) == 0);
    } else {
        law_hexadecimal_reads_back(n / 16);
        assert(hex(n).drop_last() =~= hex(n / 16));
        assert(hex(n)[0] == hex(n / 16)[0]);
    }
}

proof fn lemma_decimal_of_thousands(n: nat)
    requires
        n >= 1000,
    ensures
        decimal(n) == decimal(n / 1000) + triple(n % 1000),
{
    assert(n / 10 / 10 / 10 == n / 1000);
    assert(n % 10 == n % 1000 % 10);
    assert(n / 10 % 10 == n % 1000 / 10 % 10);
    assert(n / 10 / 10 % 10 == n % 1000 / 100);
    assert(decimal(n) == decimal(n / 10).push(digit(n % 10)));
    assert(decimal(n / 10) == decimal(n / 10 / 10).push(digit(n / 10 % 10)));
    assert(decimal(n / 10 / 10) == decimal(n / 10 / 10 / 10).push(digit(n / 10 / 10 % 10)));
    assert(decimal(n) =~= decimal(n / 1000) + triple(n % 1000));
}

proof fn lemma_filter_keeps_all(s: Seq<char>, sep: char)
    requires
        forall|i: int| 0 <= i < s.len() ==> #[trigger] s[i] != sep,
    ensures
        s.filter(|c: char| c != sep) == s,
    decreases s.len(),
{
    reveal(Seq::filter);
    if s.len() > 0 {
        lemma_filter_keeps_all(s.drop_last(), sep);
        assert(s.last() == s[s.len() - 1]);
        assert(s =~= s.drop_last().push(s.last()));
    }
}

/// **Grouping puts separators between digits and changes none of them.** Three digits
/// stand behind the last separator.
pub proof fn law_grouping_keeps_the_digits(n: nat, sep: char)
    requires
        !is_digit(sep),
    ensures
        grouped(n, sep).filter(|c: char| c != sep) == decimal(n),
        n >= 1000 ==> grouped(n, sep).len() >= 5 && grouped(n, sep)[grouped(n, sep).len() - 4] == sep && grouped(
            n,
            sep,
        ).take(grouped(n, sep).len() - 4) == grouped(n / 1000, sep),
    decreases n,
{
    reveal(Seq::filter);
    let keeps = |c: char| c != sep;
    lemma_decimal(n);
    if n < 1000 {
        lemma_filter_keeps_all(decimal(n), sep);
    } else {
        law_grouping_keeps_the_digits(n / 1000, sep);
        lemma_decimal_of_thousands(n);
        let front = grouped(n / 1000, sep);
        let tail = triple(n % 1000);
        lemma_filter_keeps_all(tail, sep);
        assert(front.push(sep).drop_last() =~= front);
        assert(front.push(sep).filter(keeps) == front.filter(keeps));
        Seq::filter_distributes_over_add(front.push(sep), tail, keeps);
        lemma_decimal(n / 1000);
        if n / 1000 >= 1000 {
        } else {
            assert(front == decimal(n / 1000));
        }
        assert(grouped(n, sep).take(grouped(n, sep).len() - 4) =~= front);
    }
}

/// **A template is filled in part by part**, where no mark stands across two parts. A
/// mark gives way to its value, and what is no mark stays.
pub proof fn law_templates_are_filled_in_by_parts(s: Seq<char>, t: Seq<char>, c: char, values: Seq<Seq<char>>)
    ensures
        s.len() == 0 || s.last() != '$' ==> filled(s + t, values) == filled(s, values) + filled(t, values),
        97 <= c as u32 && (c as u32) - 97 < values.len() ==> filled(seq!['$', c], values) == values[c as u32 - 97],
        !s.contains('$') ==> filled(s, values) == s,
    decreases s.len() + t.len(),
{
    let mark_alone = seq!['$', c];
    assert(mark_alone.take(0) =~= Seq::empty());
    assert(filled(Seq::empty(), values) =~= Seq::empty());
    if mark(c, values.len()) {
        assert(mark_alone[mark_alone.len() - 2] == '$');
        assert(filled(mark_alone, values) =~= values[c as u32 - 97]);
    }
    if t.len() == 0 {
        assert(s + t =~= s);
        assert(filled(s, values) + filled(t, values) =~= filled(s, values));
        if s.len() > 0 && !s.contains('$') {
            let rest = s.drop_last();
            if rest.contains('$') {
                let k = choose|k: int| 0 <= k < rest.len() && rest[k] == '$';
                assert(s[k] == '$');
            }
            if s.len() > 1 {
                assert(s[s.len() - 2] != '$');
            }
            law_templates_are_filled_in_by_parts(rest, t, c, values);
            assert(filled(s, values) =~= s);
        }
    } else if s.len() == 0 || s.last() != '$' {
        let whole = s + t;
        assert(whole.drop_last() =~= s + t.drop_last());
        law_templates_are_filled_in_by_parts(s, t.drop_last(), c, values);
        if t.len() > 1 {
            assert(whole.take(whole.len() - 2) =~= s + t.take(t.len() - 2));
            law_templates_are_filled_in_by_parts(s, t.take(t.len() - 2), c, values);
            assert(whole[whole.len() - 2] == t[t.len() - 2]);
        } else if s.len() > 0 {
            assert(whole[whole.len() - 2] == s.last());
        }
        assert(whole.last() == t.last());
        assert(filled(whole, values) =~= filled(s, values) + filled(t, values));
    }
}

proof fn lemma_until_white(s: Seq<char>, at: int)
    requires
        0 <= at <= s.len(),
        forall|i: int| 0 <= i < at ==> !white(#[trigger] s[i]),
    ensures
        until_white(s, at).len() <= s.len(),
        until_white(s, at) == s.take(until_white(s, at).len() as int),
        forall|i: int| 0 <= i < until_white(s, at).len() ==> !white(#[trigger] s[i]),
        until_white(s, at).len() < s.len() ==> white(s[until_white(s, at).len() as int]),
    decreases s.len() - at,
{
    if at < s.len() && !white(s[at]) {
        lemma_until_white(s, at + 1);
    }
}

/// **A text's first word stands behind its leading white space and runs to the next**,
/// and holds none.
pub proof fn law_a_word_runs_to_the_next_white_space(s: Seq<char>)
    ensures
        exists|from: int, to: int|
            0 <= from <= to <= s.len() && first_word(s) == #[trigger] s.subrange(from, to) && (forall|i: int|
                0 <= i < from ==> white(#[trigger] s[i])) && (forall|i: int| from <= i < to ==> !white(#[trigger] s[i]))
                && (to < s.len() ==> white(s[to])),
{
    let t = trimmed_start(s);
    lemma_trimmed_start(s);
    lemma_until_white(t, 0);
    let from = s.len() - t.len();
    let to = from + first_word(s).len();
    assert(first_word(s) =~= s.subrange(from, to));
    assert forall|i: int| from <= i < to implies !white(#[trigger] s[i]) by {
        assert(!white(t[i - from]));
    }
    if to < s.len() {
        assert(white(t[to - from]));
    }
}

/// **A text is parted at the first place of what parts it**, and nothing of it is lost.
pub proof fn law_a_text_is_parted_at_the_first_place(s: Seq<char>, part: Seq<char>)
    ensures
        match parted(s, part) {
            Some((front, back)) => s == front + part + back && forall|at: int|
                0 <= at < front.len() ==> !#[trigger] stands_at(s, part, at),
            None => forall|at: int| !#[trigger] stands_at(s, part, at),
        },
{
    law_a_place_is_the_first(s, part, 0);
    if let Some(i) = place(s, part, 0) {
        let (front, back) = parted(s, part).unwrap();
        assert(s =~= front + part + back) by {
            assert forall|k: int| i <= k < i + part.len() implies s[k] == part[k - i] by {
                assert(s.subrange(i, i + part.len() as int)[k - i] == part[k - i]);
            }
        }
    }
}

/// **The pieces of two texts with a separator between them are the pieces of the one and
/// then those of the other**, and a text without a separator is its only piece.
pub proof fn law_pieces_come_one_after_another(a: Seq<char>, b: Seq<char>, sep: char)
    ensures
        pieces(a.push(sep) + b, sep) == pieces(a, sep) + pieces(b, sep),
        !a.contains(sep) ==> pieces(a, sep) == seq![a],
    decreases a.len() + b.len(),
{
    let whole = a.push(sep) + b;
    if b.len() == 0 {
        assert(whole =~= a.push(sep));
        assert(whole.drop_last() =~= a);
        assert(pieces(whole, sep) =~= pieces(a, sep) + pieces(b, sep));
        if a.len() > 0 && !a.contains(sep) {
            let rest = a.drop_last();
            if rest.contains(sep) {
                let k = choose|k: int| 0 <= k < rest.len() && rest[k] == sep;
                assert(a[k] == sep);
            }
            assert(a.contains(a.last()));
            law_pieces_come_one_after_another(rest, b, sep);
            assert(rest.push(a.last()) =~= a);
            assert(pieces(rest, sep).last() == rest);
            assert(pieces(a, sep) =~= seq![a]);
        } else if a.len() == 0 {
            assert(a =~= Seq::empty());
        }
    } else {
        let rest = b.drop_last();
        law_pieces_come_one_after_another(a, rest, sep);
        law_pieces_join_back(rest, sep);
        assert(whole.drop_last() =~= a.push(sep) + rest);
        assert(whole.last() == b.last());
        let front = pieces(a, sep);
        let back = pieces(rest, sep);
        assert((front + back).drop_last() =~= front + back.drop_last());
        assert((front + back).last() == back.last());
        assert(pieces(whole, sep) =~= front + pieces(b, sep));
    }
}

} // verus!
