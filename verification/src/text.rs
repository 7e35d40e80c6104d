//! Text helpers shared by the parser, the framing analysis and the renderers.
//!
//! Text is modelled as the `Seq<char>` view of a `String`. Raw message bytes
//! become text only through [`lossy`], which is std's lossy UTF-8 decoding;
//! everything else here (number formatting, ASCII case folding, trimming,
//! splitting, joining) is written out and proved against its spec function.
use vstd::prelude::*;
use vstd::std_specs::iter::IteratorSpec;

verus! {

broadcast use vstd::string::group_string_axioms;

// ---------------------------------------------------------------------------
// Trusted edges with std
// ---------------------------------------------------------------------------

/// What `String::from_utf8_lossy` makes of a byte sequence.
pub uninterp spec fn lossy_chars(bytes: Seq<u8>) -> Seq<char>;

/// No character of `s` is ESC (U+001B), which starts a terminal escape code.
pub open spec fn no_esc(s: Seq<char>) -> bool {
    forall|i: int| 0 <= i < s.len() ==> s[i] != '\u{1b}'
}

/// No byte of `b` is ESC (0x1B).
pub open spec fn esc_free(b: Seq<u8>) -> bool {
    forall|i: int| 0 <= i < b.len() ==> b[i] != 0x1bu8
}

/// Calls `String::from_utf8_lossy(bytes).into_owned()`. Its documentation
/// promises that valid UTF-8 comes back unchanged and that every invalid
/// sequence becomes U+FFFD; so an ESC character can only come from an ESC
/// byte. The exact text made of invalid sequences is left to the name
/// `lossy_chars`.
#[verifier::external_body]
pub(crate) fn lossy(bytes: &[u8]) -> (s: String)
    ensures
        s@ == lossy_chars(bytes@),
        vstd::utf8::valid_utf8(bytes@) ==> s@ == vstd::utf8::decode_utf8(bytes@),
        esc_free(bytes@) ==> no_esc(s@),
{
    String::from_utf8_lossy(bytes).into_owned()
}

/// Calls `String::push`, which appends one `char` to the string.
#[verifier::external_body]
pub(crate) fn push_char(s: &mut String, c: char)
    ensures
        final(s)@ == old(s)@.push(c),
{
    s.push(c)
}

/// Every byte is ASCII (below 0x80).
pub open spec fn is_ascii_bytes(b: Seq<u8>) -> bool {
    forall|i: int| 0 <= i < b.len() ==> #[trigger] b[i] < 0x80
}

/// The text that lossy UTF-8 decoding makes of `b`: valid UTF-8 decodes to
/// its characters; what invalid bytes become is `lossy_chars`.
pub open spec fn text_of(b: Seq<u8>) -> Seq<char> {
    if vstd::utf8::valid_utf8(b) {
        vstd::utf8::decode_utf8(b)
    } else {
        lossy_chars(b)
    }
}

/// ASCII bytes are valid UTF-8 and decode to their own characters.
pub proof fn lemma_ascii_decodes(b: Seq<u8>)
    requires
        is_ascii_bytes(b),
    ensures
        vstd::utf8::valid_utf8(b),
        vstd::utf8::decode_utf8(b) == b.map_values(|x: u8| x as char),
{
    let c = b.map_values(|x: u8| x as char);
    assert forall|i: int| 0 <= i < c.len() implies '\0' <= #[trigger] c[i] <= '\u{7f}' by {
        let x = b[i];
        assert(x < 0x80);
    }
    vstd::utf8::is_ascii_chars_encode_utf8(c);
    let e = vstd::utf8::encode_utf8(c);
    assert forall|i: int| 0 <= i < b.len() implies #[trigger] e[i] == b[i] by {
        let x = b[i];
        assert(c[i] == x as char);
        assert(((x as char) as u8) == x);
    }
    assert(e =~= b);
    vstd::utf8::encode_utf8_valid_utf8(c);
    vstd::utf8::encode_utf8_decode_utf8(c);
}

/// Decode raw bytes as text, replacing invalid UTF-8 (via [`lossy`]).
pub fn decode_text(bytes: &[u8]) -> (s: String)
    ensures
        s@ == text_of(bytes@),
        s@ == lossy_chars(bytes@),
        esc_free(bytes@) ==> no_esc(s@),
{
    lossy(bytes)
}

// ---------------------------------------------------------------------------
// Basic conversions
// ---------------------------------------------------------------------------

/// The characters of a string slice, in order.
pub fn chars_of(s: &str) -> (v: Vec<char>)
    ensures
        v@ == s@,
{
    let mut v: Vec<char> = Vec::new();
    for c in it: s.chars()
        invariant
            v@ == it.seq().take(it.index() as int),
            it.seq() == s@,
    {
        v.push(c);
    }
    v
}

/// Append every char of `cs` to `out`.
pub fn push_chars(out: &mut String, cs: &[char])
    ensures
        final(out)@ == old(out)@ + cs@,
{
    let mut i: usize = 0;
    while i < cs.len()
        invariant
            i <= cs@.len(),
            out@ == old(out)@ + cs@.take(i as int),
        decreases cs@.len() - i,
    {
        push_char(out, cs[i]);
        i += 1;
        assert(cs@.take(i as int) == cs@.take(i - 1).push(cs@[i - 1]));
    }
    assert(cs@.take(cs@.len() as int) == cs@);
}

/// A new string holding exactly `cs`.
pub fn string_of(cs: &[char]) -> (s: String)
    ensures
        s@ == cs@,
{
    let mut s = String::new();
    push_chars(&mut s, cs);
    s
}

/// Append a string slice.
pub fn push_str(out: &mut String, s: &str)
    ensures
        final(out)@ == old(out)@ + s@,
{
    out.append(s);
}

/// Whether two string slices hold the same characters.
pub fn str_eq(a: &str, b: &str) -> (r: bool)
    ensures
        r == (a@ == b@),
{
    let x = chars_of(a);
    let y = chars_of(b);
    if x.len() != y.len() {
        return false;
    }
    let mut i: usize = 0;
    while i < x.len()
        invariant
            x@ == a@,
            y@ == b@,
            x@.len() == y@.len(),
            i <= x@.len(),
            forall|j: int| 0 <= j < i ==> x@[j] == y@[j],
        decreases x@.len() - i,
    {
        if x[i] != y[i] {
            return false;
        }
        i += 1;
    }
    assert(x@ =~= y@);
    true
}

// ---------------------------------------------------------------------------
// Number formatting
// ---------------------------------------------------------------------------

/// The ASCII digit for `d` (`0`..`9`, then `a`..`f`).
pub open spec fn digit_char(d: nat) -> char {
    if d < 10 {
        (d + 48) as char
    } else {
        (d + 87) as char
    }
}

/// `n` written in base `b` (2..=16) with lowercase digits, no leading zeros.
pub open spec fn radix(n: nat, b: nat) -> Seq<char>
    recommends
        2 <= b <= 16,
    decreases n,
    when b >= 2
{
    if n < b {
        seq![digit_char(n)]
    } else {
        proof {
            assert(n / b < n) by (nonlinear_arith)
                requires
                    n >= b,
                    b >= 2,
            ;
        }
        radix(n / b, b).push(digit_char(n % b))
    }
}

/// Decimal text of `n`, as `{}` formats an unsigned integer.
pub open spec fn dec(n: nat) -> Seq<char> {
    radix(n, 10)
}

/// Lowercase hexadecimal text of `n`, as `{:x}` formats it.
pub open spec fn hex(n: nat) -> Seq<char> {
    radix(n, 16)
}

/// `s` left-padded with `0` up to width `w`.
pub open spec fn zero_pad(s: Seq<char>, w: nat) -> Seq<char> {
    if s.len() >= w {
        s
    } else {
        Seq::new((w - s.len()) as nat, |i: int| '0') + s
    }
}

/// `s` right-padded with spaces up to width `w` (`{:<w}`).
pub open spec fn pad_right(s: Seq<char>, w: nat) -> Seq<char> {
    if s.len() >= w {
        s
    } else {
        s + Seq::new((w - s.len()) as nat, |i: int| ' ')
    }
}

fn digit(d: u64) -> (c: char)
    requires
        d < 16,
    ensures
        c == digit_char(d as nat),
{
    if d < 10 {
        ((d as u8) + 48u8) as char
    } else {
        ((d as u8) + 87u8) as char
    }
}

/// The digits of `n` in base `b`.
pub fn radix_chars(n: u64, b: u64) -> (v: Vec<char>)
    requires
        2 <= b <= 16,
    ensures
        v@ == radix(n as nat, b as nat),
    decreases n,
{
    if n < b {
        let mut v = Vec::new();
        v.push(digit(n));
        v
    } else {
        assert(n / b < n) by (nonlinear_arith)
            requires
                n >= b,
                b >= 2,
        ;
        let mut v = radix_chars(n / b, b);
        v.push(digit(n % b));
        v
    }
}

/// Append the decimal text of `n`.
pub fn push_dec(out: &mut String, n: u64)
    ensures
        final(out)@ == old(out)@ + dec(n as nat),
{
    let v = radix_chars(n, 10);
    push_chars(out, v.as_slice());
}

/// Append the lowercase hex text of `n`.
pub fn push_hex(out: &mut String, n: u64)
    ensures
        final(out)@ == old(out)@ + hex(n as nat),
{
    let v = radix_chars(n, 16);
    push_chars(out, v.as_slice());
}

/// Append `s` padded on the left with `0` to at least `w` chars.
pub fn push_zero_padded(out: &mut String, s: &[char], w: usize)
    ensures
        final(out)@ == old(out)@ + zero_pad(s@, w as nat),
{
    let mut k: usize = s.len();
    let ghost start = out@;
    while k < w
        invariant
            s@.len() <= k <= w || (k == s@.len() && k >= w),
            k >= s@.len(),
            out@ == start + Seq::new((k - s@.len()) as nat, |i: int| '0'),
        decreases w - k,
    {
        push_char(out, '0');
        k += 1;
        assert(out@ =~= start + Seq::new((k - s@.len()) as nat, |i: int| '0'));
    }
    push_chars(out, s);
    if s.len() >= w {
        assert(out@ =~= start + s@);
    } else {
        assert(k == w);
    }
}

/// Append `s` padded on the right with spaces to at least `w` chars.
pub fn push_padded_right(out: &mut String, s: &[char], w: usize)
    ensures
        final(out)@ == old(out)@ + pad_right(s@, w as nat),
{
    let ghost start = out@;
    push_chars(out, s);
    let mut k: usize = s.len();
    while k < w
        invariant
            k >= s@.len(),
            k <= w || k == s@.len(),
            out@ == start + s@ + Seq::new((k - s@.len()) as nat, |i: int| ' '),
        decreases w - k,
    {
        push_char(out, ' ');
        k += 1;
        assert(out@ =~= start + s@ + Seq::new((k - s@.len()) as nat, |i: int| ' '));
    }
    assert(out@ =~= start + pad_right(s@, w as nat));
}

// ---------------------------------------------------------------------------
// ASCII case folding
// ---------------------------------------------------------------------------

/// `char::to_ascii_lowercase`: `A`..`Z` become `a`..`z`, all else is kept.
pub open spec fn lower(c: char) -> char {
    if 'A' <= c && c <= 'Z' {
        ((c as u32) + 32) as char
    } else {
        c
    }
}

/// `str::to_ascii_lowercase` on the character level.
pub open spec fn lower_all(s: Seq<char>) -> Seq<char> {
    s.map_values(|c: char| lower(c))
}

/// `eq_ignore_ascii_case`: equal after ASCII lowercasing.
pub open spec fn ascii_ieq(a: Seq<char>, b: Seq<char>) -> bool {
    lower_all(a) == lower_all(b)
}

pub fn lower_char(c: char) -> (r: char)
    ensures
        r == lower(c),
{
    if 'A' <= c && c <= 'Z' {
        (((c as u32) + 32) as u8) as char
    } else {
        c
    }
}

/// ASCII-lowercase every char.
pub fn lower_chars(s: &[char]) -> (v: Vec<char>)
    ensures
        v@ == lower_all(s@),
{
    let mut v: Vec<char> = Vec::new();
    let mut i: usize = 0;
    while i < s.len()
        invariant
            i <= s@.len(),
            v@ == lower_all(s@.take(i as int)),
        decreases s@.len() - i,
    {
        v.push(lower_char(s[i]));
        i += 1;
        assert(lower_all(s@.take(i as int)) =~= lower_all(s@.take(i - 1)).push(lower(s@[i - 1])));
    }
    assert(s@.take(s@.len() as int) == s@);
    v
}

/// Whether two char sequences match ignoring ASCII case.
pub fn chars_ieq(a: &[char], b: &[char]) -> (r: bool)
    ensures
        r == ascii_ieq(a@, b@),
{
    let x = lower_chars(a);
    let y = lower_chars(b);
    if x.len() != y.len() {
        return false;
    }
    let mut i: usize = 0;
    while i < x.len()
        invariant
            x@ == lower_all(a@),
            y@ == lower_all(b@),
            x@.len() == y@.len(),
            i <= x@.len(),
            forall|j: int| 0 <= j < i ==> x@[j] == y@[j],
        decreases x@.len() - i,
    {
        if x[i] != y[i] {
            return false;
        }
        i += 1;
    }
    assert(x@ =~= y@);
    true
}

/// `str::eq_ignore_ascii_case`.
pub fn str_ieq(a: &str, b: &str) -> (r: bool)
    ensures
        r == ascii_ieq(a@, b@),
{
    let x = chars_of(a);
    let y = chars_of(b);
    chars_ieq(x.as_slice(), y.as_slice())
}

// ---------------------------------------------------------------------------
// Whitespace trimming (`str::trim`)
// ---------------------------------------------------------------------------

/// `char::is_whitespace`: the Unicode `White_Space` property.
pub open spec fn is_ws(c: char) -> bool {
    let u = c as u32;
    (0x09 <= u && u <= 0x0d) || u == 0x20 || u == 0x85 || u == 0xa0 || u == 0x1680 || (0x2000
        <= u && u <= 0x200a) || u == 0x2028 || u == 0x2029 || u == 0x202f || u == 0x205f || u
        == 0x3000
}

pub fn is_ws_char(c: char) -> (r: bool)
    ensures
        r == is_ws(c),
{
    let u = c as u32;
    (0x09 <= u && u <= 0x0d) || u == 0x20 || u == 0x85 || u == 0xa0 || u == 0x1680 || (0x2000
        <= u && u <= 0x200a) || u == 0x2028 || u == 0x2029 || u == 0x202f || u == 0x205f || u
        == 0x3000
}

/// `s` without leading whitespace.
pub open spec fn trim_start(s: Seq<char>) -> Seq<char>
    decreases s.len(),
{
    if s.len() > 0 && is_ws(s[0]) {
        trim_start(s.drop_first())
    } else {
        s
    }
}

/// `s` without trailing whitespace.
pub open spec fn trim_end(s: Seq<char>) -> Seq<char>
    decreases s.len(),
{
    if s.len() > 0 && is_ws(s.last()) {
        trim_end(s.drop_last())
    } else {
        s
    }
}

/// `str::trim`: leading and trailing whitespace removed.
pub open spec fn trim(s: Seq<char>) -> Seq<char> {
    trim_end(trim_start(s))
}

proof fn lemma_trim_start_step(s: Seq<char>, i: int)
    requires
        0 <= i < s.len(),
        is_ws(s[i]),
    ensures
        trim_start(s.subrange(i, s.len() as int)) == trim_start(s.subrange(i + 1, s.len() as int)),
{
    assert(s.subrange(i, s.len() as int).drop_first() =~= s.subrange(i + 1, s.len() as int));
}

proof fn lemma_trim_end_step(s: Seq<char>, j: int)
    requires
        0 < j <= s.len(),
        is_ws(s[j - 1]),
    ensures
        trim_end(s.subrange(0, j)) == trim_end(s.subrange(0, j - 1)),
{
    assert(s.subrange(0, j).drop_last() =~= s.subrange(0, j - 1));
}

/// The chars of `s` with `str::trim` applied.
pub fn trim_chars(s: &[char]) -> (v: Vec<char>)
    ensures
        v@ == trim(s@),
{
    let n = s.len();
    let mut i: usize = 0;
    assert(s@.subrange(0, n as int) =~= s@);
    while i < n && is_ws_char(s[i])
        invariant
            i <= n == s@.len(),
            trim_start(s@) == trim_start(s@.subrange(i as int, n as int)),
        decreases n - i,
    {
        proof {
            lemma_trim_start_step(s@, i as int);
        }
        i += 1;
    }
    let ghost front = s@.subrange(i as int, n as int);
    assert(trim_start(s@) == front) by {
        if front.len() > 0 {
            assert(front[0] == s@[i as int]);
        }
        assert(s@.subrange(0, n as int) =~= s@);
    }
    let mut j: usize = n;
    assert(front.subrange(0, n - i) =~= front);
    while j > i && is_ws_char(s[j - 1])
        invariant
            i <= j <= n == s@.len(),
            front == s@.subrange(i as int, n as int),
            trim_end(front) == trim_end(front.subrange(0, j - i)),
        decreases j,
    {
        proof {
            lemma_trim_end_step(front, (j - i) as int);
        }
        j -= 1;
    }
    assert(front.subrange(0, front.len() as int) =~= front);
    let ghost kept = front.subrange(0, j - i);
    assert(trim_end(kept) == kept) by {
        if kept.len() > 0 {
            assert(kept.last() == s@[j - 1]);
        }
    }
    let mut v: Vec<char> = Vec::new();
    let mut k: usize = i;
    while k < j
        invariant
            i <= k <= j <= n == s@.len(),
            v@ == s@.subrange(i as int, k as int),
        decreases j - k,
    {
        v.push(s[k]);
        k += 1;
        assert(v@ =~= s@.subrange(i as int, k as int));
    }
    assert(kept =~= s@.subrange(i as int, j as int));
    v
}

// ---------------------------------------------------------------------------
// Splitting and joining
// ---------------------------------------------------------------------------

/// `str::split(c)`: the pieces between occurrences of `c` (always at least one).
pub open spec fn split_on(s: Seq<char>, c: char) -> Seq<Seq<char>>
    decreases s.len(),
{
    if s.len() == 0 {
        seq![Seq::<char>::empty()]
    } else {
        let p = split_on(s.drop_last(), c);
        if s.last() == c {
            p.push(Seq::<char>::empty())
        } else {
            p.update(p.len() - 1, p.last().push(s.last()))
        }
    }
}

pub proof fn lemma_split_nonempty(s: Seq<char>, c: char)
    ensures
        split_on(s, c).len() >= 1,
    decreases s.len(),
{
    if s.len() > 0 {
        lemma_split_nonempty(s.drop_last(), c);
    }
}

/// The views of a vector of char vectors.
pub open spec fn views_of(v: Seq<Vec<char>>) -> Seq<Seq<char>> {
    v.map_values(|x: Vec<char>| x@)
}

/// `str::split(c)` on a char slice.
pub fn split_chars(s: &[char], c: char) -> (parts: Vec<Vec<char>>)
    ensures
        views_of(parts@) == split_on(s@, c),
{
    let mut parts: Vec<Vec<char>> = Vec::new();
    let mut cur: Vec<char> = Vec::new();
    let mut i: usize = 0;
    while i < s.len()
        invariant
            i <= s@.len(),
            views_of(parts@).push(cur@) == split_on(s@.take(i as int), c),
        decreases s@.len() - i,
    {
        let ghost prev = s@.take(i as int);
        let ghost before = views_of(parts@).push(cur@);
        assert(s@.take(i + 1).drop_last() =~= prev);
        proof {
            lemma_split_nonempty(prev, c);
        }
        if s[i] == c {
            let done = cur;
            parts.push(done);
            cur = Vec::new();
            assert(views_of(parts@).push(cur@) =~= before.push(Seq::<char>::empty()));
        } else {
            cur.push(s[i]);
            assert(views_of(parts@).push(cur@) =~= before.update(
                before.len() - 1,
                before.last().push(s@[i as int]),
            ));
        }
        i += 1;
    }
    assert(s@.take(s@.len() as int) =~= s@);
    parts.push(cur);
    parts
}

/// `parts` joined with `sep` between consecutive elements.
pub open spec fn join(parts: Seq<Seq<char>>, sep: Seq<char>) -> Seq<char>
    decreases parts.len(),
{
    if parts.len() == 0 {
        Seq::<char>::empty()
    } else if parts.len() == 1 {
        parts[0]
    } else {
        join(parts.drop_last(), sep) + sep + parts.last()
    }
}

/// Whether `t` occurs in `s` as a contiguous run.
pub open spec fn contains_run(s: Seq<char>, t: Seq<char>) -> bool {
    exists|i: int| 0 <= i && i + t.len() <= s.len() && #[trigger] s.subrange(i, i + t.len()) == t
}

/// Whether `t` occurs in `s` as a contiguous run (`str::contains`).
pub fn chars_contain(s: &[char], t: &[char]) -> (r: bool)
    ensures
        r == contains_run(s@, t@),
{
    if t.len() > s.len() {
        return false;
    }
    let mut i: usize = 0;
    while i <= s.len() - t.len()
        invariant
            t@.len() <= s@.len(),
            i <= s@.len() - t@.len() + 1,
            forall|k: int| 0 <= k < i ==> #[trigger] s@.subrange(k, k + t@.len()) != t@,
        decreases s@.len() - i,
    {
        let mut j: usize = 0;
        let mut same = true;
        while j < t.len()
            invariant
                i + t@.len() <= s@.len(),
                j <= t@.len(),
                same == (forall|m: int| 0 <= m < j ==> s@[i + m] == t@[m]),
            decreases t@.len() - j,
        {
            assert(i + j < s.len());
            if s[i + j] != t[j] {
                same = false;
            }
            j += 1;
        }
        if same {
            assert(s@.subrange(i as int, i + t@.len()) =~= t@);
            return true;
        }
        assert(s@.subrange(i as int, i + t@.len()) != t@) by {
            let k = choose|m: int| 0 <= m < t@.len() && s@[i + m] != t@[m];
            assert(s@.subrange(i as int, i + t@.len())[k] == s@[i + k]);
        }
        i += 1;
    }
    assert forall|k: int| 0 <= k && k + t@.len() <= s@.len() implies #[trigger] s@.subrange(
        k,
        k + t@.len(),
    ) != t@ by {
        assert(k < i);
    }
    false
}

// ---------------------------------------------------------------------------
// Searching
// ---------------------------------------------------------------------------

/// The index of the first `x` in `s`, or `s.len()` when there is none.
pub open spec fn find<A>(s: Seq<A>, x: A) -> int
    decreases s.len(),
{
    if s.len() == 0 {
        0
    } else if s[0] == x {
        0
    } else {
        1 + find(s.drop_first(), x)
    }
}

/// `find` is the first occurrence, or the length when there is none.
pub proof fn lemma_find<A>(s: Seq<A>, x: A)
    ensures
        0 <= find(s, x) <= s.len(),
        forall|j: int| 0 <= j < find(s, x) ==> s[j] != x,
        find(s, x) < s.len() ==> s[find(s, x)] == x,
    decreases s.len(),
{
    if s.len() > 0 && s[0] != x {
        lemma_find(s.drop_first(), x);
        assert forall|j: int| 0 <= j < find(s, x) implies s[j] != x by {
            if j > 0 {
                assert(s[j] == s.drop_first()[j - 1]);
            }
        }
    }
}

/// Any index before which `x` does not occur, and at which `x` occurs (or the
/// sequence ends), is `find`.
pub proof fn lemma_find_is<A>(s: Seq<A>, x: A, k: int)
    requires
        0 <= k <= s.len(),
        forall|j: int| 0 <= j < k ==> s[j] != x,
        k == s.len() || s[k] == x,
    ensures
        find(s, x) == k,
{
    lemma_find(s, x);
    if find(s, x) < k {
        assert(s[find(s, x)] == x);
    }
    if find(s, x) > k {
        assert(s[k] != x);
    }
}

/// The first index of `b` in `s`, or `s.len()`.
pub fn find_byte(s: &[u8], b: u8) -> (r: usize)
    ensures
        r == find(s@, b),
{
    let mut i: usize = 0;
    while i < s.len() && s[i] != b
        invariant
            i <= s@.len(),
            forall|j: int| 0 <= j < i ==> s@[j] != b,
        decreases s@.len() - i,
    {
        i += 1;
    }
    proof {
        lemma_find_is(s@, b, i as int);
    }
    i
}

/// The first index of `c` in `s`, or `s.len()`.
pub fn find_char(s: &[char], c: char) -> (r: usize)
    ensures
        r == find(s@, c),
{
    let mut i: usize = 0;
    while i < s.len() && s[i] != c
        invariant
            i <= s@.len(),
            forall|j: int| 0 <= j < i ==> s@[j] != c,
        decreases s@.len() - i,
    {
        i += 1;
    }
    proof {
        lemma_find_is(s@, c, i as int);
    }
    i
}

/// A copy of `s[lo..hi]`.
pub fn copy_range(s: &[char], lo: usize, hi: usize) -> (v: Vec<char>)
    requires
        lo <= hi <= s@.len(),
    ensures
        v@ == s@.subrange(lo as int, hi as int),
{
    let mut v: Vec<char> = Vec::new();
    let mut k: usize = lo;
    while k < hi
        invariant
            lo <= k <= hi <= s@.len(),
            v@ == s@.subrange(lo as int, k as int),
        decreases hi - k,
    {
        v.push(s[k]);
        k += 1;
        assert(v@ =~= s@.subrange(lo as int, k as int));
    }
    v
}

pub proof fn lemma_join_step(parts: Seq<Seq<char>>, k: int, sep: Seq<char>)
    requires
        1 <= k < parts.len(),
    ensures
        join(parts.take(k + 1), sep) == join(parts.take(k), sep) + sep + parts[k],
{
    assert(parts.take(k + 1).drop_last() =~= parts.take(k));
}

/// `parts[lo..hi]` joined with `sep`.
pub fn join_range(parts: &Vec<Vec<char>>, lo: usize, hi: usize, sep: &[char]) -> (v: Vec<char>)
    requires
        lo <= hi <= parts@.len(),
    ensures
        v@ == join(views_of(parts@).subrange(lo as int, hi as int), sep@),
{
    let ghost ps = views_of(parts@).subrange(lo as int, hi as int);
    let mut v: Vec<char> = Vec::new();
    if lo == hi {
        return v;
    }
    v = copy_range(parts[lo].as_slice(), 0, parts[lo].len());
    assert(v@ =~= parts@[lo as int]@);
    assert(ps.take(1) =~= seq![ps[0]]);
    let mut k: usize = lo + 1;
    while k < hi
        invariant
            lo < k <= hi <= parts@.len(),
            ps == views_of(parts@).subrange(lo as int, hi as int),
            v@ == join(ps.take(k - lo), sep@),
        decreases hi - k,
    {
        proof {
            lemma_join_step(ps, (k - lo) as int, sep@);
        }
        let ghost before = v@;
        let mut i: usize = 0;
        while i < sep.len()
            invariant
                i <= sep@.len(),
                v@ == before + sep@.take(i as int),
            decreases sep@.len() - i,
        {
            v.push(sep[i]);
            i += 1;
            assert(v@ =~= before + sep@.take(i as int));
        }
        let mut j: usize = 0;
        while j < parts[k].len()
            invariant
                k < parts@.len(),
                j <= parts@[k as int]@.len(),
                v@ == before + sep@ + parts@[k as int]@.take(j as int),
            decreases parts@[k as int]@.len() - j,
        {
            v.push(parts[k][j]);
            j += 1;
            assert(v@ =~= before + sep@ + parts@[k as int]@.take(j as int));
        }
        assert(sep@.take(sep@.len() as int) =~= sep@);
        assert(parts@[k as int]@.take(parts@[k as int]@.len() as int) =~= parts@[k as int]@);
        assert(ps[k - lo] == parts@[k as int]@);
        k += 1;
    }
    assert(ps.take(hi - lo) =~= ps);
    v
}

// ---------------------------------------------------------------------------
// Text without ESC
// ---------------------------------------------------------------------------

pub broadcast proof fn lemma_no_esc_concat(a: Seq<char>, b: Seq<char>)
    ensures
        #[trigger] no_esc(a + b) == (no_esc(a) && no_esc(b)),
{
    if no_esc(a + b) {
        assert forall|i: int| 0 <= i < a.len() implies a[i] != '\u{1b}' by {
            assert((a + b)[i] == a[i]);
        }
        assert forall|i: int| 0 <= i < b.len() implies b[i] != '\u{1b}' by {
            assert((a + b)[a.len() + i] == b[i]);
        }
    }
}

pub proof fn lemma_no_esc_subrange(s: Seq<char>, i: int, j: int)
    requires
        no_esc(s),
        0 <= i <= j <= s.len(),
    ensures
        no_esc(s.subrange(i, j)),
{
    assert forall|k: int| 0 <= k < j - i implies s.subrange(i, j)[k] != '\u{1b}' by {
        assert(s.subrange(i, j)[k] == s[i + k]);
    }
}

pub proof fn lemma_split_no_esc(s: Seq<char>, c: char)
    requires
        no_esc(s),
    ensures
        forall|i: int| 0 <= i < split_on(s, c).len() ==> no_esc(#[trigger] split_on(s, c)[i]),
    decreases s.len(),
{
    if s.len() > 0 {
        let d = s.drop_last();
        lemma_no_esc_subrange(s, 0, s.len() - 1);
        assert(d =~= s.subrange(0, s.len() - 1));
        lemma_split_no_esc(d, c);
        lemma_split_nonempty(d, c);
        let p = split_on(d, c);
        assert(s[s.len() - 1] != '\u{1b}');
        assert forall|i: int| 0 <= i < split_on(s, c).len() implies no_esc(
            #[trigger] split_on(s, c)[i],
        ) by {
            if s.last() == c {
                if i < p.len() {
                    assert(split_on(s, c)[i] == p[i]);
                } else {
                    assert(split_on(s, c)[i] =~= Seq::<char>::empty());
                }
            } else {
                if i < p.len() - 1 {
                    assert(split_on(s, c)[i] == p[i]);
                } else {
                    let q = p.last().push(s.last());
                    assert(split_on(s, c)[i] == q);
                    assert(no_esc(p[p.len() - 1]));
                    assert forall|k: int| 0 <= k < q.len() implies q[k] != '\u{1b}' by {
                        if k < q.len() - 1 {
                            assert(q[k] == p.last()[k]);
                        }
                    }
                }
            }
        }
    }
}

pub proof fn lemma_trim_no_esc(s: Seq<char>)
    requires
        no_esc(s),
    ensures
        no_esc(trim_start(s)),
        no_esc(trim_end(s)),
        no_esc(trim(s)),
    decreases s.len(),
{
    if s.len() > 0 {
        lemma_no_esc_subrange(s, 1, s.len() as int);
        assert(s.drop_first() =~= s.subrange(1, s.len() as int));
        lemma_no_esc_subrange(s, 0, s.len() - 1);
        assert(s.drop_last() =~= s.subrange(0, s.len() - 1));
        lemma_trim_no_esc(s.drop_first());
        lemma_trim_no_esc(s.drop_last());
    }
    if trim_start(s).len() > 0 {
        lemma_trim_no_esc_end(trim_start(s));
    }
}

proof fn lemma_trim_no_esc_end(s: Seq<char>)
    requires
        no_esc(s),
    ensures
        no_esc(trim_end(s)),
    decreases s.len(),
{
    if s.len() > 0 {
        lemma_no_esc_subrange(s, 0, s.len() - 1);
        assert(s.drop_last() =~= s.subrange(0, s.len() - 1));
        lemma_trim_no_esc_end(s.drop_last());
    }
}

pub proof fn lemma_lower_no_esc(s: Seq<char>)
    requires
        no_esc(s),
    ensures
        no_esc(lower_all(s)),
{
    assert forall|i: int| 0 <= i < lower_all(s).len() implies lower_all(s)[i] != '\u{1b}' by {
        assert(s[i] != '\u{1b}');
    }
}

pub proof fn lemma_join_no_esc(parts: Seq<Seq<char>>, sep: Seq<char>)
    requires
        forall|i: int| 0 <= i < parts.len() ==> no_esc(#[trigger] parts[i]),
        no_esc(sep),
    ensures
        no_esc(join(parts, sep)),
    decreases parts.len(),
{
    broadcast use lemma_no_esc_concat;

    if parts.len() > 1 {
        let d = parts.drop_last();
        assert forall|i: int| 0 <= i < d.len() implies no_esc(#[trigger] d[i]) by {
            assert(d[i] == parts[i]);
        }
        lemma_join_no_esc(d, sep);
        assert(no_esc(parts[parts.len() - 1]));
    } else if parts.len() == 1 {
        assert(no_esc(parts[0]));
    }
}

pub proof fn lemma_radix_no_esc(n: nat, b: nat)
    requires
        2 <= b <= 16,
    ensures
        no_esc(radix(n, b)),
    decreases n,
{
    if n < b {
        assert(radix(n, b) == seq![digit_char(n)]);
    } else {
        assert(n / b < n) by (nonlinear_arith)
            requires
                n >= b,
                b >= 2,
        ;
        lemma_radix_no_esc(n / b, b);
        assert(n % b < b) by (nonlinear_arith)
            requires
                b >= 2,
        ;
        let r = radix(n, b);
        assert(r == radix(n / b, b).push(digit_char(n % b)));
        assert forall|i: int| 0 <= i < r.len() implies r[i] != '\u{1b}' by {
            if i < r.len() - 1 {
                assert(r[i] == radix(n / b, b)[i]);
            }
        }
    }
}

} // verus!
