//! Character-level string operations: trimming, splitting, replacing and
//! number parsing, each stated over the `Seq<char>` view of a string.

use vstd::prelude::*;

verus! {

/// Calls `String::push`: the contract claims that the string afterwards is
/// the one before followed by `c`.
#[verifier::external_body]
fn push_char(s: &mut String, c: char)
    ensures
        final(s)@ == old(s)@.push(c),
{
    s.push(c);
}

/// The characters of `s`, in order.
pub fn chars_of(s: &str) -> (v: Vec<char>)
    ensures
        v@ == s@,
{
    let mut v: Vec<char> = Vec::new();
    for c in it: s.chars()
        invariant
            v@ == it.seq().take(it.index() as int),
    {
        v.push(c);
    }
    v
}

/// The string made of the characters of `v`, in order.
pub fn string_of(v: &[char]) -> (s: String)
    ensures
        s@ == v@,
{
    let mut s = String::new();
    let n = v.len();
    for i in 0..n
        invariant
            n == v@.len(),
            s@ == v@.take(i as int),
    {
        push_char(&mut s, v[i]);
        assert(v@.take(i + 1) == v@.take(i as int).push(v@[i as int]));
    }
    assert(v@.take(n as int) == v@);
    s
}


/// Whether `c` has the Unicode `White_Space` property, which is what
/// `char::is_whitespace` tests.
pub open spec fn is_white_space(c: char) -> bool {
    let u = c as u32;
    ||| 0x09 <= u <= 0x0D
    ||| u == 0x20
    ||| u == 0x85
    ||| u == 0xA0
    ||| u == 0x1680
    ||| 0x2000 <= u <= 0x200A
    ||| u == 0x2028
    ||| u == 0x2029
    ||| u == 0x202F
    ||| u == 0x205F
    ||| u == 0x3000
}

/// Tests `c` for white space.
pub fn white_space(c: char) -> (b: bool)
    ensures
        b == is_white_space(c),
{
    let u = c as u32;
    (0x09 <= u && u <= 0x0D) || u == 0x20 || u == 0x85 || u == 0xA0 || u == 0x1680 || (0x2000 <= u
        && u <= 0x200A) || u == 0x2028 || u == 0x2029 || u == 0x202F || u == 0x205F || u == 0x3000
}

/// `s` without its leading white space.
pub open spec fn trim_start(s: Seq<char>) -> Seq<char>
    decreases s.len(),
{
    if s.len() > 0 && is_white_space(s[0]) {
        trim_start(s.drop_first())
    } else {
        s
    }
}

/// `s` without its trailing white space.
pub open spec fn trim_end(s: Seq<char>) -> Seq<char>
    decreases s.len(),
{
    if s.len() > 0 && is_white_space(s.last()) {
        trim_end(s.drop_last())
    } else {
        s
    }
}

/// `s` without leading and trailing white space (`str::trim`).
pub open spec fn trim(s: Seq<char>) -> Seq<char> {
    trim_end(trim_start(s))
}

/// Whether `s` neither starts nor ends with white space.
pub open spec fn is_trimmed(s: Seq<char>) -> bool {
    s.len() > 0 ==> !is_white_space(s[0]) && !is_white_space(s.last())
}

proof fn lemma_trim_start_clean(s: Seq<char>)
    ensures
        trim_start(s).len() > 0 ==> !is_white_space(trim_start(s)[0]),
    decreases s.len(),
{
    if s.len() > 0 && is_white_space(s[0]) {
        lemma_trim_start_clean(s.drop_first());
    }
}

proof fn lemma_trim_end_prefix(s: Seq<char>)
    ensures
        trim_end(s).len() <= s.len(),
        trim_end(s) == s.take(trim_end(s).len() as int),
        trim_end(s).len() > 0 ==> !is_white_space(trim_end(s).last()),
    decreases s.len(),
{
    if s.len() > 0 && is_white_space(s.last()) {
        lemma_trim_end_prefix(s.drop_last());
        assert(s.drop_last().take(trim_end(s).len() as int) == s.take(trim_end(s).len() as int));
    } else {
        assert(s.take(s.len() as int) == s);
    }
}

/// What `trim` gives neither starts nor ends with white space.
pub proof fn lemma_trim_is_trimmed(s: Seq<char>)
    ensures
        is_trimmed(trim(s)),
{
    lemma_trim_start_clean(s);
    lemma_trim_end_prefix(trim_start(s));
    let t = trim(s);
    if t.len() > 0 {
        assert(t[0] == trim_start(s)[0]);
    }
}

proof fn lemma_trim_start_step(s: Seq<char>, i: int)
    requires
        0 <= i < s.len(),
        is_white_space(s[i]),
    ensures
        trim_start(s.subrange(i, s.len() as int)) == trim_start(s.subrange(i + 1, s.len() as int)),
{
    assert(s.subrange(i, s.len() as int).drop_first() == s.subrange(i + 1, s.len() as int));
}

proof fn lemma_trim_end_step(s: Seq<char>, j: int)
    requires
        0 < j <= s.len(),
        is_white_space(s[j - 1]),
    ensures
        trim_end(s.subrange(0, j)) == trim_end(s.subrange(0, j - 1)),
{
    assert(s.subrange(0, j).drop_last() == s.subrange(0, j - 1));
}

/// The characters of `s` without leading and trailing white space.
pub fn trim_chars(s: &[char]) -> (r: Vec<char>)
    ensures
        r@ == trim(s@),
{
    let n = s.len();
    let mut i: usize = 0;
    assert(s@.subrange(0, n as int) == s@);
    while i < n && white_space(s[i])
        invariant
            i <= n,
            n == s@.len(),
            trim_start(s@) == trim_start(s@.subrange(i as int, n as int)),
        decreases n - i,
    {
        proof {
            lemma_trim_start_step(s@, i as int);
        }
        i = i + 1;
    }
    let ghost t = s@.subrange(i as int, n as int);
    assert(trim_start(s@) == t);
    let mut j: usize = n;
    assert(t.subrange(0, (j - i) as int) == t);
    while j > i && white_space(s[j - 1])
        invariant
            i <= j <= n,
            n == s@.len(),
            t == s@.subrange(i as int, n as int),
            trim_end(t) == trim_end(t.subrange(0, (j - i) as int)),
        decreases j,
    {
        proof {
            lemma_trim_end_step(t, (j - i) as int);
        }
        j = j - 1;
    }
    assert(trim_end(t) == t.subrange(0, (j - i) as int));
    let mut r: Vec<char> = Vec::new();
    let mut k: usize = i;
    while k < j
        invariant
            i <= k <= j <= n,
            n == s@.len(),
            r@ == s@.subrange(i as int, k as int),
        decreases j - k,
    {
        r.push(s[k]);
        assert(s@.subrange(i as int, k + 1) == s@.subrange(i as int, k as int).push(s@[k as int]));
        k = k + 1;
    }
    assert(t.subrange(0, (j - i) as int) == s@.subrange(i as int, j as int));
    r
}

/// `str::trim` on a string.
pub fn trim_string(s: &str) -> (r: String)
    ensures
        r@ == trim(s@),
{
    let cs = chars_of(s);
    let t = trim_chars(cs.as_slice());
    string_of(t.as_slice())
}


/// The views of a sequence of strings.
pub open spec fn views(v: Seq<String>) -> Seq<Seq<char>> {
    v.map_values(|p: String| p@)
}

/// The pieces of `s` between the occurrences of `c` (`str::split` with a
/// character): one more piece than there are occurrences, empty pieces kept.
pub open spec fn split(s: Seq<char>, c: char) -> Seq<Seq<char>>
    decreases s.len(),
{
    if s.len() == 0 {
        seq![Seq::<char>::empty()]
    } else {
        let r = split(s.drop_last(), c);
        if s.last() == c {
            r.push(Seq::<char>::empty())
        } else {
            r.update(r.len() - 1, r.last().push(s.last()))
        }
    }
}

/// No piece holds the character that `s` was split at.
pub proof fn lemma_split_pieces_lack(s: Seq<char>, c: char)
    ensures
        forall|k: int| 0 <= k < split(s, c).len() ==> lacks(#[trigger] split(s, c)[k], c),
    decreases s.len(),
{
    if s.len() > 0 {
        lemma_split_pieces_lack(s.drop_last(), c);
        lemma_split_nonempty(s.drop_last(), c);
        let r = split(s.drop_last(), c);
        if s.last() != c {
            let last = r.last().push(s.last());
            assert(lacks(r[r.len() - 1], c));
            assert(lacks(last, c));
            assert forall|k: int| 0 <= k < split(s, c).len() implies lacks(#[trigger] split(s, c)[k], c) by {
                if k < r.len() - 1 {
                    assert(split(s, c)[k] == r[k]);
                }
            }
        } else {
            assert forall|k: int| 0 <= k < split(s, c).len() implies lacks(#[trigger] split(s, c)[k], c) by {
                if k < r.len() {
                    assert(split(s, c)[k] == r[k]);
                } else {
                    assert(split(s, c)[k] == Seq::<char>::empty());
                }
            }
        }
    }
}

/// There is always at least one piece.
pub proof fn lemma_split_nonempty(s: Seq<char>, c: char)
    ensures
        split(s, c).len() >= 1,
    decreases s.len(),
{
    if s.len() > 0 {
        lemma_split_nonempty(s.drop_last(), c);
    }
}

/// Splits `s` at every occurrence of `c`.
pub fn split_string(s: &str, c: char) -> (r: Vec<String>)
    ensures
        views(r@) == split(s@, c),
{
    let cs = chars_of(s);
    let n = cs.len();
    let mut pieces: Vec<String> = Vec::new();
    let mut cur: Vec<char> = Vec::new();
    assert(cs@.take(0) == Seq::<char>::empty());
    assert(views(pieces@).push(cur@) == split(cs@.take(0), c));
    for i in 0..n
        invariant
            n == cs@.len(),
            views(pieces@).push(cur@) == split(cs@.take(i as int), c),
    {
        let ghost before = cs@.take(i as int);
        assert(cs@.take(i + 1).drop_last() == before);
        assert(cs@.take(i + 1).last() == cs@[i as int]);
        proof {
            lemma_split_nonempty(before, c);
        }
        if cs[i] == c {
            let piece = string_of(cur.as_slice());
            pieces.push(piece);
            cur = Vec::new();
            assert(views(pieces@) == split(before, c));
            assert(views(pieces@).push(cur@) == split(cs@.take(i + 1), c));
        } else {
            cur.push(cs[i]);
            assert(views(pieces@).push(cur@) =~= split(before, c).update(
                split(before, c).len() - 1,
                split(before, c).last().push(cs@[i as int]),
            ));
        }
    }
    assert(cs@.take(n as int) == cs@);
    let last = string_of(cur.as_slice());
    pieces.push(last);
    assert(views(pieces@) =~= split(s@, c));
    pieces
}

/// `s` with `r` put before, between and after all of its characters: what
/// `str::replace` does with an empty pattern.
pub open spec fn replace_empty(s: Seq<char>, r: Seq<char>) -> Seq<char>
    decreases s.len(),
{
    if s.len() == 0 {
        r
    } else {
        r + seq![s[0]] + replace_empty(s.drop_first(), r)
    }
}

/// `s` with every occurrence of `p` replaced by `r`, the occurrences taken
/// from left to right without overlap (`str::replace`).
pub open spec fn replace_all(s: Seq<char>, p: Seq<char>, r: Seq<char>) -> Seq<char>
    decreases s.len(),
{
    if p.len() == 0 {
        replace_empty(s, r)
    } else if s.len() < p.len() {
        s
    } else if s.take(p.len() as int) == p {
        r + replace_all(s.skip(p.len() as int), p, r)
    } else {
        seq![s[0]] + replace_all(s.drop_first(), p, r)
    }
}

/// `s` without any occurrence of `c`.
pub open spec fn remove_char(s: Seq<char>, c: char) -> Seq<char> {
    replace_all(s, seq![c], Seq::<char>::empty())
}

/// Whether `c` does not occur in `s`.
pub open spec fn lacks(s: Seq<char>, c: char) -> bool {
    forall|i: int| 0 <= i < s.len() ==> s[i] != c
}

/// Removing a character leaves no occurrence of it.
pub proof fn lemma_remove_char_lacks(s: Seq<char>, c: char)
    ensures
        lacks(remove_char(s, c), c),
    decreases s.len(),
{
    if s.len() > 0 {
        lemma_remove_char_lacks(s.drop_first(), c);
        assert(s.skip(1) == s.drop_first());
        if s.take(1) == seq![c] {
            assert(remove_char(s, c) == remove_char(s.drop_first(), c));
        } else {
            assert(s[0] != c) by {
                if s[0] == c {
                    assert(s.take(1) =~= seq![c]);
                }
            }
            assert(remove_char(s, c) == seq![s[0]] + remove_char(s.drop_first(), c));
        }
    }
}

/// Whether `p` occurs in `s` at position `i`.
fn occurs_at(s: &[char], i: usize, p: &[char]) -> (b: bool)
    requires
        i <= s@.len(),
    ensures
        b == (p@.len() <= s@.len() - i && s@.subrange(i as int, i + p@.len()) == p@),
{
    if p.len() > s.len() - i {
        return false;
    }
    let m = p.len();
    let len = s.len();
    for k in 0..m
        invariant
            m == p@.len(),
            len == s@.len(),
            i <= s@.len(),
            m <= s@.len() - i,
            forall|j: int| 0 <= j < k ==> s@[i + j] == p@[j],
    {
        if s[i + k] != p[k] {
            assert(s@.subrange(i as int, i + m)[k as int] != p@[k as int]);
            return false;
        }
    }
    assert(s@.subrange(i as int, i + m) =~= p@);
    true
}

fn append_chars(out: &mut Vec<char>, r: &[char])
    ensures
        final(out)@ == old(out)@ + r@,
{
    let m = r.len();
    let ghost start = out@;
    for k in 0..m
        invariant
            m == r@.len(),
            out@ == start + r@.take(k as int),
    {
        out.push(r[k]);
        assert(r@.take(k + 1) == r@.take(k as int).push(r@[k as int]));
    }
    assert(r@.take(m as int) == r@);
}

fn replace_empty_chars(s: &[char], r: &[char]) -> (out: Vec<char>)
    ensures
        out@ == replace_empty(s@, r@),
{
    let n = s.len();
    let mut out: Vec<char> = Vec::new();
    assert(s@.skip(0) == s@);
    for i in 0..n
        invariant
            n == s@.len(),
            out@ + replace_empty(s@.skip(i as int), r@) == replace_empty(s@, r@),
    {
        let ghost rest = s@.skip(i as int);
        assert(rest.drop_first() == s@.skip(i + 1));
        append_chars(&mut out, r);
        out.push(s[i]);
        assert(out@ + replace_empty(s@.skip(i + 1), r@) =~= replace_empty(s@, r@));
    }
    assert(s@.skip(n as int) == Seq::<char>::empty());
    append_chars(&mut out, r);
    assert(out@ =~= replace_empty(s@, r@));
    out
}

/// Replaces every occurrence of `p` in `s` by `r`.
pub fn replace_chars(s: &[char], p: &[char], r: &[char]) -> (out: Vec<char>)
    ensures
        out@ == replace_all(s@, p@, r@),
{
    if p.len() == 0 {
        return replace_empty_chars(s, r);
    }
    let n = s.len();
    let m = p.len();
    let mut out: Vec<char> = Vec::new();
    let mut i: usize = 0;
    assert(s@.skip(0) == s@);
    while i < n
        invariant
            i <= n,
            n == s@.len(),
            m == p@.len(),
            m > 0,
            out@ + replace_all(s@.skip(i as int), p@, r@) == replace_all(s@, p@, r@),
        decreases n - i,
    {
        let ghost rest = s@.skip(i as int);
        if occurs_at(s, i, p) {
            assert(rest.take(m as int) == s@.subrange(i as int, i + m));
            assert(rest.skip(m as int) == s@.skip(i + m));
            append_chars(&mut out, r);
            assert(out@ + replace_all(s@.skip(i + m), p@, r@) =~= replace_all(s@, p@, r@));
            i = i + m;
        } else {
            if n - i >= m {
                assert(rest.take(m as int) == s@.subrange(i as int, i + m));
                assert(rest.drop_first() == s@.skip(i + 1));
                out.push(s[i]);
                assert(out@ + replace_all(s@.skip(i + 1), p@, r@) =~= replace_all(s@, p@, r@));
            } else {
                assert(replace_all(rest, p@, r@) == rest);
                assert(rest == s@.subrange(i as int, n as int));
                let k0 = i;
                while i < n
                    invariant
                        k0 <= i <= n,
                        n == s@.len(),
                        rest == s@.skip(k0 as int),
                        out@ + s@.subrange(i as int, n as int) == replace_all(s@, p@, r@),
                    decreases n - i,
                {
                    let ghost prev = out@;
                    out.push(s[i]);
                    assert(out@ + s@.subrange(i + 1, n as int) =~= prev + s@.subrange(
                        i as int,
                        n as int,
                    ));
                    i = i + 1;
                }
                assert(out@ + s@.subrange(n as int, n as int) == out@);
                return out;
            }
            i = i + 1;
        }
    }
    assert(s@.skip(n as int) == Seq::<char>::empty());
    assert(replace_all(s@.skip(n as int), p@, r@) == Seq::<char>::empty());
    assert(out@ + Seq::<char>::empty() == out@);
    out
}


/// `str::replace` on strings.
pub fn replace_string(s: &str, p: &str, r: &str) -> (out: String)
    ensures
        out@ == replace_all(s@, p@, r@),
{
    let sc = chars_of(s);
    let pc = chars_of(p);
    let rc = chars_of(r);
    let out = replace_chars(sc.as_slice(), pc.as_slice(), rc.as_slice());
    string_of(out.as_slice())
}

/// `s` with every occurrence of `c` removed (`str::replace(c, "")`).
pub fn remove_char_string(s: &str, c: char) -> (out: String)
    ensures
        out@ == remove_char(s@, c),
{
    let sc = chars_of(s);
    let mut pc: Vec<char> = Vec::new();
    pc.push(c);
    let rc: Vec<char> = Vec::new();
    assert(pc@ == seq![c]);
    let out = replace_chars(sc.as_slice(), pc.as_slice(), rc.as_slice());
    string_of(out.as_slice())
}

/// The strings of `parts` joined without separator.
pub open spec fn concat(parts: Seq<Seq<char>>) -> Seq<char>
    decreases parts.len(),
{
    if parts.len() == 0 {
        Seq::<char>::empty()
    } else {
        concat(parts.drop_last()) + parts.last()
    }
}

/// The strings of `parts`, each trimmed, joined without separator.
pub open spec fn concat_trimmed(parts: Seq<Seq<char>>) -> Seq<char>
    decreases parts.len(),
{
    if parts.len() == 0 {
        Seq::<char>::empty()
    } else {
        concat_trimmed(parts.drop_last()) + trim(parts.last())
    }
}

/// Joins `parts` without separator (`collect::<String>()`).
pub fn join_strings(parts: &Vec<String>) -> (out: String)
    ensures
        out@ == concat(views(parts@)),
{
    let n = parts.len();
    let mut out = String::new();
    for i in 0..n
        invariant
            n == parts@.len(),
            out@ == concat(views(parts@.take(i as int))),
    {
        assert(parts@.take(i + 1).drop_last() == parts@.take(i as int));
        assert(views(parts@.take(i + 1)).drop_last() == views(parts@.take(i as int)));
        out.append(parts[i].as_str());
    }
    assert(parts@.take(n as int) == parts@);
    out
}

/// Trims each of `parts` and joins them without separator.
pub fn join_trimmed(parts: &Vec<String>) -> (out: String)
    ensures
        out@ == concat_trimmed(views(parts@)),
{
    let n = parts.len();
    let mut out = String::new();
    for i in 0..n
        invariant
            n == parts@.len(),
            out@ == concat_trimmed(views(parts@.take(i as int))),
    {
        assert(parts@.take(i + 1).drop_last() == parts@.take(i as int));
        assert(views(parts@.take(i + 1)).drop_last() == views(parts@.take(i as int)));
        let t = trim_string(parts[i].as_str());
        out.append(t.as_str());
    }
    assert(parts@.take(n as int) == parts@);
    out
}

/// Whether `c` is an ASCII decimal digit.
pub open spec fn is_digit(c: char) -> bool {
    '0' <= c <= '9'
}

/// The number that a string of decimal digits spells.
pub open spec fn digits_value(d: Seq<char>) -> nat
    decreases d.len(),
{
    if d.len() == 0 {
        0
    } else {
        digits_value(d.drop_last()) * 10 + (d.last() as nat - '0' as nat) as nat
    }
}

/// The digits of `s`, after one leading `+` if there is one.
pub open spec fn unsigned_digits(s: Seq<char>) -> Seq<char> {
    if s.len() > 0 && s[0] == '+' {
        s.drop_first()
    } else {
        s
    }
}

/// What `str::parse::<u32>` gives: one optional `+`, then at least one
/// decimal digit and nothing else, with a value that fits in a `u32`.
pub open spec fn parse_u32(s: Seq<char>) -> Option<u32> {
    let d = unsigned_digits(s);
    if d.len() > 0 && (forall|i: int| 0 <= i < d.len() ==> is_digit(#[trigger] d[i]))
        && digits_value(d) <= u32::MAX {
        Some(digits_value(d) as u32)
    } else {
        None
    }
}

proof fn lemma_digits_value_prefix(d: Seq<char>, k: int)
    requires
        0 <= k <= d.len(),
        forall|i: int| 0 <= i < d.len() ==> is_digit(#[trigger] d[i]),
    ensures
        digits_value(d.take(k)) <= digits_value(d),
    decreases d.len(),
{
    if k < d.len() {
        let e = d.drop_last();
        assert(e.take(k) == d.take(k));
        lemma_digits_value_prefix(e, k);
    } else {
        assert(d.take(k) == d);
    }
}

/// Parses `s` as a `u32` as `str::parse` does.
pub fn parse_u32_string(s: &str) -> (r: Option<u32>)
    ensures
        r == parse_u32(s@),
{
    let cs = chars_of(s);
    let n = cs.len();
    let start: usize = if n > 0 && cs[0] == '+' { 1 } else { 0 };
    let ghost d = unsigned_digits(s@);
    assert(d == cs@.skip(start as int));
    if start == n {
        return None;
    }
    let mut acc: u64 = 0;
    let mut i: usize = start;
    assert(d.take(0) == Seq::<char>::empty());
    while i < n
        invariant
            start <= i <= n,
            n == cs@.len(),
            d == cs@.skip(start as int),
            d == unsigned_digits(s@),
            cs@ == s@,
            d.len() > 0,
            forall|j: int| 0 <= j < i - start ==> is_digit(#[trigger] d[j]),
            acc == digits_value(d.take(i - start)),
            acc <= u32::MAX,
        decreases n - i,
    {
        let c = cs[i];
        if !('0' <= c && c <= '9') {
            assert(!is_digit(d[i - start]));
            return None;
        }
        let v = (c as u32 - '0' as u32) as u64;
        assert(d.take(i - start + 1).drop_last() == d.take(i - start));
        assert(d.take(i - start + 1).last() == c);
        let next = acc * 10 + v;
        if next > 0xFFFF_FFFF {
            proof {
                if forall|j: int| 0 <= j < d.len() ==> is_digit(#[trigger] d[j]) {
                    lemma_digits_value_prefix(d, i - start + 1);
                }
            }
            return None;
        }
        acc = next;
        i = i + 1;
    }
    assert(d.take(n - start) == d);
    Some(acc as u32)
}

proof fn lemma_trim_start_skips_white(s: Seq<char>)
    ensures
        trim_start(s).len() <= s.len(),
        trim_start(s) == s.skip(s.len() - trim_start(s).len()),
        forall|h: int| 0 <= h < s.len() - trim_start(s).len() ==> is_white_space(#[trigger] s[h]),
    decreases s.len(),
{
    if s.len() > 0 && is_white_space(s[0]) {
        lemma_trim_start_skips_white(s.drop_first());
        let t = trim_start(s);
        assert(s.drop_first().skip(s.drop_first().len() - t.len()) == s.skip(s.len() - t.len()));
        assert forall|h: int| 0 <= h < s.len() - t.len() implies is_white_space(#[trigger] s[h]) by {
            if h > 0 {
                assert(s[h] == s.drop_first()[h - 1]);
            }
        }
    } else {
        assert(s.skip(0) == s);
    }
}

proof fn lemma_trim_end_keeps_prefix(s: Seq<char>)
    ensures
        forall|h: int| trim_end(s).len() <= h < s.len() ==> is_white_space(#[trigger] s[h]),
    decreases s.len(),
{
    if s.len() > 0 && is_white_space(s.last()) {
        lemma_trim_end_keeps_prefix(s.drop_last());
        assert forall|h: int| trim_end(s).len() <= h < s.len() implies is_white_space(#[trigger] s[h]) by {
            if h < s.len() - 1 {
                assert(s[h] == s.drop_last()[h]);
            }
        }
    }
}

/// `trim` takes away the white space at both ends of `s` and nothing else:
/// what it gives is one contiguous part of `s`, all of `s` before and after
/// that part is white space, and the part neither starts nor ends with white
/// space (so "  Linus Torvalds " gives "Linus Torvalds").
pub proof fn law_trim_exact(s: Seq<char>)
    ensures
        is_trimmed(trim(s)),
        exists|i: int, j: int|
            #![trigger s.subrange(i, j)]
            0 <= i <= j <= s.len() && trim(s) == s.subrange(i, j) && (forall|h: int|
                0 <= h < i ==> is_white_space(#[trigger] s[h])) && (forall|h: int|
                j <= h < s.len() ==> is_white_space(#[trigger] s[h])),
{
    lemma_trim_is_trimmed(s);
    lemma_trim_start_skips_white(s);
    let t = trim_start(s);
    let i = s.len() - t.len();
    lemma_trim_end_prefix(t);
    lemma_trim_end_keeps_prefix(t);
    let j = i + trim_end(t).len();
    assert(trim(s) == s.subrange(i, j));
    assert forall|h: int| j <= h < s.len() implies is_white_space(#[trigger] s[h]) by {
        assert(s[h] == t[h - i]);
    }
    assert(0 <= i <= j <= s.len() && trim(s) == s.subrange(i, j) && (forall|h: int|
        0 <= h < i ==> is_white_space(#[trigger] s[h])) && (forall|h: int|
        j <= h < s.len() ==> is_white_space(#[trigger] s[h])));
}

/// Joining a list of strings without separator is associative over the
/// list: joining `a` followed by `b` gives the join of `a` followed by the
/// join of `b`; a single string joins to itself, and no string to the empty
/// one.
pub proof fn law_concat_append(a: Seq<Seq<char>>, b: Seq<Seq<char>>)
    ensures
        concat(a + b) == concat(a) + concat(b),
        forall|x: Seq<char>| #[trigger] concat(seq![x]) == x,
        concat(Seq::<Seq<char>>::empty()) == Seq::<char>::empty(),
    decreases b.len(),
{
    assert forall|x: Seq<char>| #[trigger] concat(seq![x]) == x by {
        let e = Seq::<Seq<char>>::empty();
        assert(concat(e) == Seq::<char>::empty());
        assert(seq![x].len() == 1);
        assert(seq![x].drop_last() == e);
        assert(seq![x].last() == x);
        assert(concat(seq![x]) == concat(e) + x);
        assert(Seq::<char>::empty() + x =~= x);
    }
    if b.len() == 0 {
        assert(a + b == a);
    } else {
        law_concat_append(a, b.drop_last());
        assert((a + b).drop_last() == a + b.drop_last());
        assert((a + b).last() == b.last());
    }
}

/// Joining trimmed pieces is joining the pieces, each trimmed first.
pub proof fn law_concat_trimmed(parts: Seq<Seq<char>>)
    ensures
        concat_trimmed(parts) == concat(parts.map_values(|p: Seq<char>| trim(p))),
    decreases parts.len(),
{
    if parts.len() > 0 {
        law_concat_trimmed(parts.drop_last());
        assert(parts.map_values(|p: Seq<char>| trim(p)).drop_last() == parts.drop_last().map_values(
            |p: Seq<char>| trim(p),
        ));
    }
}

/// The pieces joined back together with `c` between each two of them.
pub open spec fn join_with(pieces: Seq<Seq<char>>, c: char) -> Seq<char>
    decreases pieces.len(),
{
    if pieces.len() == 0 {
        Seq::<char>::empty()
    } else if pieces.len() == 1 {
        pieces[0]
    } else {
        join_with(pieces.drop_last(), c).push(c) + pieces.last()
    }
}

proof fn lemma_join_with_extend_last(pieces: Seq<Seq<char>>, c: char, x: char)
    requires
        pieces.len() >= 1,
    ensures
        join_with(pieces.update(pieces.len() - 1, pieces.last().push(x)), c) == join_with(pieces, c).push(x),
{
    let u = pieces.update(pieces.len() - 1, pieces.last().push(x));
    if pieces.len() > 1 {
        assert(u.drop_last() == pieces.drop_last());
    }
}

/// Splitting at `c` loses nothing and invents nothing: no piece holds `c`,
/// and joining the pieces back with `c` between them gives `s` again. These
/// two facts fix the pieces.
pub proof fn law_split_join(s: Seq<char>, c: char)
    ensures
        join_with(split(s, c), c) == s,
        forall|k: int| 0 <= k < split(s, c).len() ==> lacks(#[trigger] split(s, c)[k], c),
    decreases s.len(),
{
    lemma_split_pieces_lack(s, c);
    if s.len() > 0 {
        law_split_join(s.drop_last(), c);
        lemma_split_nonempty(s.drop_last(), c);
        let r = split(s.drop_last(), c);
        if s.last() == c {
            assert(r.push(Seq::<char>::empty()).drop_last() == r);
            assert(join_with(r, c).push(c) + Seq::<char>::empty() == s);
        } else {
            lemma_join_with_extend_last(r, c, s.last());
            assert(s.drop_last().push(s.last()) == s);
        }
    }
}

/// Whether a character differs from `c`.
pub open spec fn other_than(c: char) -> spec_fn(char) -> bool {
    |x: char| x != c
}

/// Removing a character keeps every other character, in order: it is the
/// characters of `s` that differ from `c`.
pub proof fn law_remove_char_keeps_others(s: Seq<char>, c: char)
    ensures
        remove_char(s, c) == s.filter(other_than(c)),
    decreases s.len(),
{
    if s.len() > 0 {
        law_remove_char_keeps_others(s.drop_first(), c);
        assert(s.skip(1) == s.drop_first());
        assert(s == seq![s[0]] + s.drop_first());
        Seq::filter_distributes_over_add(seq![s[0]], s.drop_first(), other_than(c));
        reveal_with_fuel(Seq::filter, 2);
        assert(seq![s[0]].drop_last() == Seq::<char>::empty());
        if s.take(1) == seq![c] {
            assert(s[0] == s.take(1)[0]);
            assert(remove_char(s, c) == remove_char(s.drop_first(), c));
            assert(seq![s[0]].filter(other_than(c)) == Seq::<char>::empty());
        } else {
            assert(s[0] != c) by {
                if s[0] == c {
                    assert(s.take(1) =~= seq![c]);
                }
            }
            assert(remove_char(s, c) == seq![s[0]] + remove_char(s.drop_first(), c));
            assert(seq![s[0]].filter(other_than(c)) == seq![s[0]]);
        }
    } else {
        reveal(Seq::filter);
    }
}

} // verus!
