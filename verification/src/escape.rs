//! Decoding of XML character references embedded in a byte buffer.
//!
//! [`unescape`] scans a borrowed buffer for `&...;` sequences and replaces
//! each recognized escape with the single byte it denotes.  When the buffer
//! holds no `&` at all, the input is handed back unchanged, without
//! allocating; otherwise a fresh buffer is built.  The first malformed
//! entity aborts the whole call with an [`Error`] and the byte offset of
//! the `&` that began it.

use vstd::prelude::*;
use vstd::slice::{slice_subrange, slice_to_vec};

verus! {

/// The byte `&` that begins an entity.
pub const AMP: u8 = 38;

/// The byte `;` that ends an entity.
pub const SEMI: u8 = 59;

/// The byte `#` that begins a numeric entity name.
pub const HASH: u8 = 35;

/// The byte `x` that marks a hexadecimal numeric entity.
pub const LOWER_X: u8 = 120;

/// The byte `+`, the one sign `u32::from_str_radix` accepts.
pub const PLUS: u8 = 43;

/// The byte `<`, decoded from `&lt;`.
pub const LT: u8 = 60;

/// The byte `>`, decoded from `&gt;`.
pub const GT: u8 = 62;

/// The byte `'`, decoded from `&apos;`.
pub const APOS: u8 = 39;

/// The byte `"`, decoded from `&quot;`.
pub const QUOT: u8 = 34;

/// The entity name `lt`.
pub open spec fn lt_name() -> Seq<u8> {
    seq![108u8, 116u8]
}

/// The entity name `gt`.
pub open spec fn gt_name() -> Seq<u8> {
    seq![103u8, 116u8]
}

/// The entity name `amp`.
pub open spec fn amp_name() -> Seq<u8> {
    seq![97u8, 109u8, 112u8]
}

/// The entity name `apos`.
pub open spec fn apos_name() -> Seq<u8> {
    seq![97u8, 112u8, 111u8, 115u8]
}

/// The entity name `quot`.
pub open spec fn quot_name() -> Seq<u8> {
    seq![113u8, 117u8, 111u8, 116u8]
}

/// The entity name `#x0`, the hexadecimal spelling of the null character.
pub open spec fn hex_null_name() -> Seq<u8> {
    seq![35u8, 120u8, 48u8]
}

/// The entity name `#0`, the octal spelling of the null character.
pub open spec fn oct_null_name() -> Seq<u8> {
    seq![35u8, 48u8]
}

/// Why an entity failed to decode.  Every failure is one malformed entity;
/// the variants keep the distinguishing detail, and [`Error::message`]
/// renders the descriptive text.
#[derive(Debug, Clone, PartialEq, Eq)]
pub enum Error {
    /// No `;` was found after an `&` before the buffer ended
    /// ("Cannot find ';' after '&'").
    Unterminated,
    /// The entity `&;` has no name ("Encountered empty entity").
    Empty,
    /// The entity was written `&#x0;` or `&#0;`, which would decode to a
    /// null byte ("Null character entity is not allowed").
    NullCharacter,
    /// The bytes after `&#x` are not a hexadecimal numeral for a valid
    /// character ("Invalid hexadecimal character number in an entity: ...").
    InvalidHexadecimal(Vec<u8>),
    /// The bytes after `&#` are not an octal numeral for a valid character.
    /// The rendered message says "decimal" even though the base is eight;
    /// that wording is kept deliberately
    /// ("Invalid decimal character number in an entity: ...").
    InvalidDecimal(Vec<u8>),
    /// The entity name is none of the recognized ones
    /// ("Unexpected entity: ...").
    Unexpected(Vec<u8>),
}

/// The mathematical shape of an [`Error`]: the same variants, with every
/// byte payload abstracted to a `Seq<u8>`.
pub enum ErrorModel {
    Unterminated,
    Empty,
    NullCharacter,
    InvalidHexadecimal(Seq<u8>),
    InvalidDecimal(Seq<u8>),
    Unexpected(Seq<u8>),
}

impl View for Error {
    type V = ErrorModel;

    open spec fn view(&self) -> ErrorModel {
        match self {
            Error::Unterminated => ErrorModel::Unterminated,
            Error::Empty => ErrorModel::Empty,
            Error::NullCharacter => ErrorModel::NullCharacter,
            Error::InvalidHexadecimal(digits) => ErrorModel::InvalidHexadecimal(digits@),
            Error::InvalidDecimal(digits) => ErrorModel::InvalidDecimal(digits@),
            Error::Unexpected(name) => ErrorModel::Unexpected(name@),
        }
    }
}

/// The characters of a byte string, each byte as the character of its own
/// code point, the way entity names are echoed into messages.
pub open spec fn byte_chars(bytes: Seq<u8>) -> Seq<char> {
    Seq::new(bytes.len(), |i: int| bytes[i] as char)
}

impl Error {
    /// The descriptive text of this error, as [`Error::message`] renders it.
    pub open spec fn message_model(&self) -> Seq<char> {
        match self {
            Error::Unterminated => "Cannot find ';' after '&'"@,
            Error::Empty => "Encountered empty entity"@,
            Error::NullCharacter => "Null character entity is not allowed"@,
            Error::InvalidHexadecimal(digits) => "Invalid hexadecimal character number in an entity: "@
                + byte_chars(digits@),
            Error::InvalidDecimal(digits) => "Invalid decimal character number in an entity: "@
                + byte_chars(digits@),
            Error::Unexpected(name) => "Unexpected entity: "@ + byte_chars(name@),
        }
    }

    /// Renders the descriptive message of this error.  The octal variant is
    /// worded "decimal" on purpose: the wording travels with the behavior
    /// it has always described.
    pub fn message(&self) -> (m: String)
        ensures
            m@ == self.message_model(),
    {
        match self {
            Error::Unterminated => "Cannot find ';' after '&'".to_owned(),
            Error::Empty => "Encountered empty entity".to_owned(),
            Error::NullCharacter => "Null character entity is not allowed".to_owned(),
            Error::InvalidHexadecimal(digits) => with_name(
                "Invalid hexadecimal character number in an entity: ",
                digits,
            ),
            Error::InvalidDecimal(digits) => with_name(
                "Invalid decimal character number in an entity: ",
                digits,
            ),
            Error::Unexpected(name) => with_name("Unexpected entity: ", name),
        }
    }
}

/// Renders `prefix` followed by the name bytes, one character per byte.
fn with_name(prefix: &str, name: &Vec<u8>) -> (m: String)
    ensures
        m@ == prefix@ + byte_chars(name@),
{
    let mut m = prefix.to_owned();
    proof {
        assert(prefix@ + byte_chars(name@).take(0) =~= prefix@);
    }
    let mut k: usize = 0;
    let len = name.len();
    while k < len
        invariant
            k <= len == name@.len(),
            m@ == prefix@ + byte_chars(name@).take(k as int),
        decreases len - k,
    {
        push_char(&mut m, name[k] as char);
        proof {
            assert(prefix@ + byte_chars(name@).take(k + 1 as int) =~= (prefix@ + byte_chars(
                name@,
            ).take(k as int)) + seq![name@[k as int] as char]);
        }
        k = k + 1;
    }
    proof {
        assert(byte_chars(name@).take(len as int) =~= byte_chars(name@));
    }
    m
}

/// Relies on `String::push`: it appends exactly the one given character.
#[verifier::external_body]
fn push_char(m: &mut String, c: char)
    ensures
        final(m)@ == old(m)@ + seq![c],
{
    m.push(c);
}

/// A result paired, on failure, with the byte offset of the `&` that began
/// the offending entity.
pub type ResultPos<T> = Result<T, (Error, usize)>;

/// The outcome of a successful decode: either the input buffer itself,
/// untouched and unallocated, or a freshly built buffer with every escape
/// replaced.
#[derive(Debug)]
pub enum Unescaped<'a> {
    /// The input held no `&`; this is the input buffer itself.
    Borrowed(&'a [u8]),
    /// The input held at least one escape; this buffer is newly allocated.
    Owned(Vec<u8>),
}

impl<'a> View for Unescaped<'a> {
    type V = Seq<u8>;

    open spec fn view(&self) -> Seq<u8> {
        match self {
            Unescaped::Borrowed(bytes) => bytes@,
            Unescaped::Owned(bytes) => bytes@,
        }
    }
}

impl<'a> Unescaped<'a> {
    /// Whether the result aliases the input buffer rather than owning a
    /// fresh one.
    pub open spec fn is_borrowed(&self) -> bool {
        self matches Unescaped::Borrowed(_)
    }

    /// The decoded bytes, whichever variant holds them.
    pub fn as_bytes(&self) -> (bytes: &[u8])
        ensures
            bytes@ == self@,
    {
        match self {
            Unescaped::Borrowed(bytes) => bytes,
            Unescaped::Owned(bytes) => bytes.as_slice(),
        }
    }
}

/// Whether the buffer holds an `&` anywhere.
pub open spec fn contains_amp(s: Seq<u8>) -> bool {
    exists|k: int| 0 <= k < s.len() && s[k] == AMP
}

/// The position of the first `;` at or after `from`, if any.
pub open spec fn find_semi(s: Seq<u8>, from: int) -> Option<int>
    decreases s.len() - from,
{
    if from < 0 || from >= s.len() {
        None
    } else if s[from] == SEMI {
        Some(from)
    } else {
        find_semi(s, from + 1)
    }
}

/// The value of one numeral byte, as `u32::from_str_radix` reads it:
/// `0`-`9`, then `a`-`z` and `A`-`Z` for ten and up.  Bytes that are no
/// numeral in any base get the sentinel 36, below no radix in use.
pub open spec fn digit_value(b: u8) -> int {
    if 48 <= b && b <= 57 {
        b - 48
    } else if 97 <= b && b <= 122 {
        b - 97 + 10
    } else if 65 <= b && b <= 90 {
        b - 65 + 10
    } else {
        36
    }
}

/// Whether every byte of `s` is a numeral of the given base.
pub open spec fn digits_in_radix(s: Seq<u8>, radix: int) -> bool {
    forall|k: int| 0 <= k < s.len() ==> digit_value(s[k]) < radix
}

/// The unbounded value of a numeral string in the given base.
pub open spec fn digits_value(s: Seq<u8>, radix: int) -> int
    decreases s.len(),
{
    if s.len() == 0 {
        0
    } else {
        digits_value(s.drop_last(), radix) * radix + digit_value(s.last())
    }
}

/// What `u32::from_str_radix` yields on these bytes: after at most one
/// leading `+`, at least one numeral of the base, with a value that fits
/// in `u32`; anything else is rejected.
pub open spec fn parse_u32(s: Seq<u8>, radix: int) -> Option<u32> {
    let digits = if s.len() > 0 && s[0] == PLUS {
        s.subrange(1, s.len() as int)
    } else {
        s
    };
    if digits.len() > 0 && digits_in_radix(digits, radix) && digits_value(digits, radix)
        <= u32::MAX {
        Some(digits_value(digits, radix) as u32)
    } else {
        None
    }
}

/// Whether a code point is a Unicode scalar value, i.e. one that
/// `char::from_u32` accepts: not a surrogate and at most `0x10FFFF`.
pub open spec fn is_scalar_value(v: u32) -> bool {
    (v < 0xD800 || v > 0xDFFF) && v <= 0x10FFFF
}

/// The byte a numeric entity with these numeral bytes decodes to: the code
/// point read in the given base, required to be a valid character, then
/// narrowed to its low eight bits.
pub open spec fn decode_numeric(digits: Seq<u8>, radix: int) -> Option<u8> {
    match parse_u32(digits, radix) {
        Some(v) => if is_scalar_value(v) {
            Some((v % 256) as u8)
        } else {
            None
        },
        None => None,
    }
}

/// How one entity name (the bytes between `&` and `;`) decodes: either the
/// single byte it stands for, or the reason it is malformed.
pub open spec fn classify(name: Seq<u8>) -> Result<u8, ErrorModel> {
    if name == lt_name() {
        Ok(LT)
    } else if name == gt_name() {
        Ok(GT)
    } else if name == amp_name() {
        Ok(AMP)
    } else if name == apos_name() {
        Ok(APOS)
    } else if name == quot_name() {
        Ok(QUOT)
    } else if name.len() == 0 {
        Err(ErrorModel::Empty)
    } else if name == hex_null_name() || name == oct_null_name() {
        Err(ErrorModel::NullCharacter)
    } else if name.len() > 1 && name[0] == HASH {
        if name[1] == LOWER_X {
            let digits = name.subrange(2, name.len() as int);
            match decode_numeric(digits, 16) {
                Some(b) => Ok(b),
                None => Err(ErrorModel::InvalidHexadecimal(digits)),
            }
        } else {
            let digits = name.subrange(1, name.len() as int);
            match decode_numeric(digits, 8) {
                Some(b) => Ok(b),
                None => Err(ErrorModel::InvalidDecimal(digits)),
            }
        }
    } else {
        Err(ErrorModel::Unexpected(name))
    }
}

/// Where a `;` is found, it lies at or after `from` and before the end,
/// and no `;` stands in between; where none is found, none exists.
pub proof fn lemma_find_semi_range(s: Seq<u8>, from: int)
    requires
        0 <= from,
    ensures
        match find_semi(s, from) {
            Some(j) => from <= j < s.len() && s[j] == SEMI && (forall|k: int|
                from <= k < j ==> s[k] != SEMI),
            None => forall|k: int| from <= k < s.len() ==> s[k] != SEMI,
        },
    decreases s.len() - from,
{
    if from < s.len() && s[from] != SEMI {
        lemma_find_semi_range(s, from + 1);
    }
}

/// What decoding yields from position `i` on: the decoded tail of the
/// buffer, or the first malformed entity at or after `i` with its offset.
pub open spec fn unescaped_from(s: Seq<u8>, i: int) -> Result<Seq<u8>, (ErrorModel, int)>
    decreases s.len() - i,
{
    if i < 0 || i >= s.len() {
        Ok(Seq::empty())
    } else if s[i] != AMP {
        match unescaped_from(s, i + 1) {
            Ok(rest) => Ok(seq![s[i]] + rest),
            Err(e) => Err(e),
        }
    } else {
        match find_semi(s, i + 1) {
            None => Err((ErrorModel::Unterminated, i)),
            Some(j) => match classify(s.subrange(i + 1, j)) {
                Ok(b) => {
                    proof {
                        lemma_find_semi_range(s, i + 1);
                    }
                    match unescaped_from(s, j + 1) {
                        Ok(rest) => Ok(seq![b] + rest),
                        Err(e) => Err(e),
                    }
                },
                Err(kind) => Err((kind, i)),
            },
        }
    }
}

/// What decoding the whole buffer yields.
pub open spec fn unescaped(s: Seq<u8>) -> Result<Seq<u8>, (ErrorModel, int)> {
    unescaped_from(s, 0)
}

/// The state of a scan that has decoded `done` out of the bytes before
/// position `p`: the whole buffer decodes to `done` followed by whatever
/// the rest decodes to, and fails exactly where the rest fails.
pub open spec fn scan_state(s: Seq<u8>, done: Seq<u8>, p: int) -> bool {
    match unescaped_from(s, p) {
        Ok(rest) => unescaped(s) == Ok::<Seq<u8>, (ErrorModel, int)>(done + rest),
        Err(e) => unescaped(s) == Err::<Seq<u8>, (ErrorModel, int)>(e),
    }
}

/// Skipping a stretch that holds no `&` only copies it: decoding from `a`
/// yields `s[a..b]` followed by the decode from `b`.
proof fn lemma_skip_no_amp(s: Seq<u8>, a: int, b: int)
    requires
        0 <= a <= b <= s.len(),
        forall|k: int| a <= k < b ==> s[k] != AMP,
    ensures
        match unescaped_from(s, b) {
            Ok(rest) => unescaped_from(s, a) == Ok::<Seq<u8>, (ErrorModel, int)>(
                s.subrange(a, b) + rest,
            ),
            Err(e) => unescaped_from(s, a) == Err::<Seq<u8>, (ErrorModel, int)>(e),
        },
    decreases b - a,
{
    if a == b {
        match unescaped_from(s, b) {
            Ok(rest) => {
                assert(s.subrange(a, b) + rest =~= rest);
            },
            Err(_) => {},
        }
    } else {
        lemma_skip_no_amp(s, a + 1, b);
        match unescaped_from(s, b) {
            Ok(rest) => {
                assert(s.subrange(a, b) + rest =~= seq![s[a]] + (s.subrange(a + 1, b) + rest));
            },
            Err(_) => {},
        }
    }
}

/// Law: a buffer that holds no `&` decodes to itself, unchanged.
pub proof fn lemma_unescape_identity(s: Seq<u8>)
    requires
        !contains_amp(s),
    ensures
        unescaped(s) == Ok::<Seq<u8>, (ErrorModel, int)>(s),
{
    lemma_skip_no_amp(s, 0, s.len() as int);
    assert(s.subrange(0, s.len() as int) + Seq::<u8>::empty() =~= s);
}

/// On success, decoding from `i` yields at most the bytes that remain.
proof fn lemma_unescaped_from_len(s: Seq<u8>, i: int)
    requires
        0 <= i,
    ensures
        match unescaped_from(s, i) {
            Ok(rest) => rest.len() <= s.len() - i || (i >= s.len() && rest.len() == 0),
            Err(_) => true,
        },
    decreases s.len() - i,
{
    if i < s.len() {
        if s[i] != AMP {
            lemma_unescaped_from_len(s, i + 1);
        } else {
            match find_semi(s, i + 1) {
                None => {},
                Some(j) => {
                    lemma_find_semi_range(s, i + 1);
                    lemma_unescaped_from_len(s, j + 1);
                },
            }
        }
    }
}

/// Law: a successful decode never lengthens the buffer; every escape of
/// `2 + n` bytes collapses to one byte, and nothing else changes length.
pub proof fn lemma_unescape_never_grows(s: Seq<u8>)
    ensures
        unescaped(s) matches Ok(out) ==> out.len() <= s.len(),
{
    lemma_unescaped_from_len(s, 0);
}

/// Taking one literal byte keeps the scan state: the byte moves, as it
/// stands, from the remainder to the decoded prefix.
proof fn lemma_scan_state_literal(s: Seq<u8>, done: Seq<u8>, p: int)
    requires
        0 <= p < s.len(),
        s[p] != AMP,
        scan_state(s, done, p),
    ensures
        scan_state(s, done.push(s[p]), p + 1),
{
    match unescaped_from(s, p + 1) {
        Ok(rest) => {
            assert(done + (seq![s[p]] + rest) =~= done.push(s[p]) + rest);
        },
        Err(_) => {},
    }
}

/// Decoding one entity keeps the scan state: the whole escape, `&` through
/// `;`, collapses to its decoded byte, and the scan resumes past the `;`.
proof fn lemma_scan_state_entity(s: Seq<u8>, done: Seq<u8>, p: int, j: int, b: u8)
    requires
        0 <= p < s.len(),
        s[p] == AMP,
        find_semi(s, p + 1) == Some(j),
        classify(s.subrange(p + 1, j)) == Ok::<u8, ErrorModel>(b),
        scan_state(s, done, p),
    ensures
        p < j + 1 <= s.len(),
        scan_state(s, done.push(b), j + 1),
{
    lemma_find_semi_range(s, p + 1);
    match unescaped_from(s, j + 1) {
        Ok(rest) => {
            assert(done + (seq![b] + rest) =~= done.push(b) + rest);
        },
        Err(_) => {},
    }
}

/// A failing entity at the scan position fails the whole decode there.
proof fn lemma_scan_state_error(s: Seq<u8>, done: Seq<u8>, p: int, kind: ErrorModel)
    requires
        0 <= p < s.len(),
        s[p] == AMP,
        match find_semi(s, p + 1) {
            None => kind == ErrorModel::Unterminated,
            Some(j) => classify(s.subrange(p + 1, j)) == Err::<u8, ErrorModel>(kind),
        },
        scan_state(s, done, p),
    ensures
        unescaped(s) == Err::<Seq<u8>, (ErrorModel, int)>((kind, p)),
{
}

/// A stretch without `;` does not move the search for one.
proof fn lemma_find_semi_skip(s: Seq<u8>, from: int, q: int)
    requires
        0 <= from <= q <= s.len(),
        forall|k: int| from <= k < q ==> s[k] != SEMI,
    ensures
        find_semi(s, from) == find_semi(s, q),
    decreases q - from,
{
    if from < q {
        lemma_find_semi_skip(s, from + 1, q);
    }
}

/// The position of the first `;` at or after `from`, if any.
fn find_semicolon(raw: &[u8], from: usize) -> (r: Option<usize>)
    requires
        from <= raw@.len(),
    ensures
        match r {
            Some(j) => from <= j < raw@.len() && find_semi(raw@, from as int) == Some(j as int),
            None => find_semi(raw@, from as int) == None::<int>,
        },
{
    let n = raw.len();
    let mut q = from;
    while q < n
        invariant
            from <= q <= n == raw@.len(),
            forall|k: int| from <= k < q ==> raw@[k] != SEMI,
        decreases n - q,
    {
        if raw[q] == SEMI {
            proof {
                lemma_find_semi_skip(raw@, from as int, q as int);
            }
            return Some(q);
        }
        q = q + 1;
    }
    proof {
        lemma_find_semi_skip(raw@, from as int, n as int);
    }
    None
}

/// The position of the first `&` at or after `from`, if any.
fn find_amp(raw: &[u8], from: usize) -> (r: Option<usize>)
    requires
        from <= raw@.len(),
    ensures
        match r {
            Some(i) => from <= i < raw@.len() && raw@[i as int] == AMP && (forall|k: int|
                from <= k < i ==> raw@[k] != AMP),
            None => forall|k: int| from <= k < raw@.len() ==> raw@[k] != AMP,
        },
{
    let n = raw.len();
    let mut q = from;
    while q < n
        invariant
            from <= q <= n == raw@.len(),
            forall|k: int| from <= k < q ==> raw@[k] != AMP,
        decreases n - q,
    {
        if raw[q] == AMP {
            return Some(q);
        }
        q = q + 1;
    }
    None
}

/// A numeral string's value is never negative.
proof fn lemma_digits_value_nonneg(s: Seq<u8>, radix: int)
    requires
        radix >= 1,
    ensures
        digits_value(s, radix) >= 0,
    decreases s.len(),
{
    if s.len() > 0 {
        lemma_digits_value_nonneg(s.drop_last(), radix);
        let v = digits_value(s.drop_last(), radix);
        assert(v * radix >= v) by (nonlinear_arith)
            requires
                v >= 0,
                radix >= 1,
        ;
    }
}

/// Reading one more numeral multiplies the value so far by the base and
/// adds the numeral.
proof fn lemma_digits_value_step(s: Seq<u8>, m: int, radix: int)
    requires
        0 <= m < s.len(),
    ensures
        digits_value(s.take(m + 1), radix) == digits_value(s.take(m), radix) * radix
            + digit_value(s[m]),
{
    assert(s.take(m + 1).drop_last() =~= s.take(m));
    assert(s.take(m + 1).last() == s[m]);
}

/// A numeral string is worth at least any of its prefixes: the remaining
/// numerals can only grow the value.
proof fn lemma_digits_value_prefix_le(s: Seq<u8>, m: int, radix: int)
    requires
        radix >= 1,
        0 <= m <= s.len(),
    ensures
        digits_value(s.take(m), radix) <= digits_value(s, radix),
    decreases s.len() - m,
{
    if m == s.len() {
        assert(s.take(m) =~= s);
    } else {
        lemma_digits_value_step(s, m, radix);
        lemma_digits_value_nonneg(s.take(m), radix);
        let v = digits_value(s.take(m), radix);
        assert(v * radix >= v) by (nonlinear_arith)
            requires
                v >= 0,
                radix >= 1,
        ;
        lemma_digits_value_prefix_le(s, m + 1, radix);
    }
}

/// The value of one numeral byte, with 36 for bytes that are no numeral.
fn digit_value_of(b: u8) -> (d: u32)
    ensures
        d as int == digit_value(b),
{
    if 48 <= b && b <= 57 {
        (b - 48) as u32
    } else if 97 <= b && b <= 122 {
        (b - 97) as u32 + 10
    } else if 65 <= b && b <= 90 {
        (b - 65) as u32 + 10
    } else {
        36
    }
}

/// Reads the bytes as `u32::from_str_radix` would: at most one leading
/// `+`, then at least one numeral of the base, rejecting any other byte
/// and any value beyond `u32`.
fn parse_u32_bytes(s: &[u8], radix: u32) -> (r: Option<u32>)
    requires
        radix == 8 || radix == 16,
    ensures
        r == parse_u32(s@, radix as int),
{
    let n = s.len();
    let mut k: usize = 0;
    if n > 0 && s[0] == PLUS {
        k = 1;
    }
    let ghost start = k as int;
    let ghost ds = s@.subrange(start, n as int);
    proof {
        if s@.len() > 0 && s@[0] == PLUS {
            assert(ds =~= s@.subrange(1, s@.len() as int));
        } else {
            assert(ds =~= s@);
        }
    }
    if k == n {
        // No numerals at all: rejected whatever the base.
        return None;
    }
    let mut acc: u64 = 0;
    while k < n
        invariant
            0 <= start <= k <= n == s@.len(),
            start < n,
            radix == 8 || radix == 16,
            ds == s@.subrange(start, n as int),
            ds == (if s@.len() > 0 && s@[0] == PLUS {
                s@.subrange(1, s@.len() as int)
            } else {
                s@
            }),
            digits_in_radix(ds.take(k - start), radix as int),
            acc == digits_value(ds.take(k - start), radix as int),
            acc <= u32::MAX,
        decreases n - k,
    {
        let d = digit_value_of(s[k]);
        proof {
            assert(ds[k - start] == s@[k as int]);
        }
        if d >= radix {
            // An alien byte: the numeral string is invalid in this base.
            proof {
                assert(digit_value(ds[k - start]) >= radix);
                assert(!digits_in_radix(ds, radix as int));
            }
            return None;
        }
        assert(acc * (radix as u64) + (d as u64) <= 0xFFFF_FFFFu64 * 16 + 36) by (nonlinear_arith)
            requires
                acc <= 0xFFFF_FFFFu64,
                radix <= 16,
                d <= 36,
        ;
        let next: u64 = acc * (radix as u64) + (d as u64);
        proof {
            lemma_digits_value_step(ds, k - start, radix as int);
        }
        if next > 0xFFFF_FFFF {
            proof {
                // Whatever follows, the value is already past `u32`: if a
                // later byte is invalid the string is rejected for that,
                // and otherwise the full value only grows from here.
                lemma_digits_value_prefix_le(ds, k - start + 1, radix as int);
                assert(digits_in_radix(ds, radix as int) ==> digits_value(ds, radix as int)
                    > u32::MAX);
            }
            return None;
        }
        acc = next;
        k = k + 1;
    }
    proof {
        assert(ds.take(n - start) =~= ds);
    }
    Some(acc as u32)
}

/// Decodes the numeral bytes of a numeric entity: the code point read in
/// the given base must be a valid character, and its low eight bits are
/// the decoded byte.
fn decode_numeric_bytes(digits: &[u8], radix: u32) -> (r: Option<u8>)
    requires
        radix == 8 || radix == 16,
    ensures
        r == decode_numeric(digits@, radix as int),
{
    match parse_u32_bytes(digits, radix) {
        Some(v) => {
            if (v < 0xD800 || v > 0xDFFF) && v <= 0x10FFFF {
                Some((v % 256) as u8)
            } else {
                None
            }
        },
        None => None,
    }
}

/// Classifies one entity name — the bytes between `&` and `;` — handing
/// back its decoded byte, or the error naming what is wrong with it.
fn classify_entity(name: &[u8]) -> (r: Result<u8, Error>)
    ensures
        match r {
            Ok(b) => classify(name@) == Ok::<u8, ErrorModel>(b),
            Err(e) => classify(name@) == Err::<u8, ErrorModel>(e@),
        },
{
    let n = name.len();
    if n == 2 && name[0] == 108 && name[1] == 116 {
        proof {
            assert(name@ =~= lt_name());
        }
        Ok(LT)
    } else if n == 2 && name[0] == 103 && name[1] == 116 {
        proof {
            assert(name@ =~= gt_name());
        }
        Ok(GT)
    } else if n == 3 && name[0] == 97 && name[1] == 109 && name[2] == 112 {
        proof {
            assert(name@ =~= amp_name());
        }
        Ok(AMP)
    } else if n == 4 && name[0] == 97 && name[1] == 112 && name[2] == 111 && name[3] == 115 {
        proof {
            assert(name@ =~= apos_name());
        }
        Ok(APOS)
    } else if n == 4 && name[0] == 113 && name[1] == 117 && name[2] == 111 && name[3] == 116 {
        proof {
            assert(name@ =~= quot_name());
        }
        Ok(QUOT)
    } else if n == 0 {
        Err(Error::Empty)
    } else if (n == 3 && name[0] == HASH && name[1] == LOWER_X && name[2] == 48) || (n == 2
        && name[0] == HASH && name[1] == 48) {
        proof {
            if n == 3 {
                assert(name@ =~= hex_null_name());
            } else {
                assert(name@ =~= oct_null_name());
            }
        }
        Err(Error::NullCharacter)
    } else if n > 1 && name[0] == HASH {
        if name[1] == LOWER_X {
            let digits = slice_subrange(name, 2, n);
            match decode_numeric_bytes(digits, 16) {
                Some(b) => Ok(b),
                None => Err(Error::InvalidHexadecimal(slice_to_vec(digits))),
            }
        } else {
            let digits = slice_subrange(name, 1, n);
            match decode_numeric_bytes(digits, 8) {
                Some(b) => Ok(b),
                None => Err(Error::InvalidDecimal(slice_to_vec(digits))),
            }
        }
    } else {
        Err(Error::Unexpected(slice_to_vec(name)))
    }
}

/// Appends `raw[from..to]` to `out`, byte for byte.
fn push_range(out: &mut Vec<u8>, raw: &[u8], from: usize, to: usize)
    requires
        from <= to <= raw@.len(),
    ensures
        final(out)@ == old(out)@ + raw@.subrange(from as int, to as int),
{
    let ghost out0 = out@;
    let mut k = from;
    while k < to
        invariant
            from <= k <= to <= raw@.len(),
            out@ == out0 + raw@.subrange(from as int, k as int),
        decreases to - k,
    {
        out.push(raw[k]);
        proof {
            assert(out0 + raw@.subrange(from as int, k + 1 as int) =~= (out0 + raw@.subrange(
                from as int,
                k as int,
            )).push(raw@[k as int]));
        }
        k = k + 1;
    }
    proof {
        assert(out@ =~= out0 + raw@.subrange(from as int, to as int));
    }
}

/// Decodes every XML character reference (`&...;`) in `raw`.
///
/// On success the result holds the decoded bytes: the input itself, with
/// no allocation, when it contains no `&` at all, and otherwise a fresh
/// buffer in which every escape is replaced by its single decoded byte.
/// On the first malformed entity the whole call fails with the reason and
/// the byte offset of the `&` that began that entity.
pub fn unescape<'a>(raw: &'a [u8]) -> (r: ResultPos<Unescaped<'a>>)
    ensures
        match r {
            Ok(out) => unescaped(raw@) == Ok::<Seq<u8>, (ErrorModel, int)>(out@) && (
            out.is_borrowed() <==> !contains_amp(raw@)),
            Err((e, pos)) => unescaped(raw@) == Err::<Seq<u8>, (ErrorModel, int)>(
                (e@, pos as int),
            ),
        },
{
    let ghost s = raw@;
    let n = raw.len();
    let first_amp = match find_amp(raw, 0) {
        None => {
            // The fast path: nothing to decode, nothing to allocate.
            proof {
                lemma_unescape_identity(s);
            }
            return Ok(Unescaped::Borrowed(raw));
        },
        Some(i) => i,
    };
    let mut out: Vec<u8> = Vec::new();
    push_range(&mut out, raw, 0, first_amp);
    proof {
        lemma_skip_no_amp(s, 0, first_amp as int);
    }
    let mut p = first_amp;
    while p < n
        invariant
            n == s.len(),
            s == raw@,
            p <= n,
            contains_amp(s),
            scan_state(s, out@, p as int),
        decreases n - p,
    {
        if raw[p] != AMP {
            let b = raw[p];
            proof {
                lemma_scan_state_literal(s, out@, p as int);
            }
            out.push(b);
            p = p + 1;
        } else {
            match find_semicolon(raw, p + 1) {
                None => {
                    proof {
                        lemma_scan_state_error(s, out@, p as int, ErrorModel::Unterminated);
                    }
                    return Err((Error::Unterminated, p));
                },
                Some(j) => {
                    let name = slice_subrange(raw, p + 1, j);
                    match classify_entity(name) {
                        Ok(b) => {
                            proof {
                                lemma_scan_state_entity(s, out@, p as int, j as int, b);
                            }
                            out.push(b);
                            p = j + 1;
                        },
                        Err(e) => {
                            proof {
                                lemma_scan_state_error(s, out@, p as int, e@);
                            }
                            return Err((e, p));
                        },
                    }
                },
            }
        }
    }
    proof {
        // The scan consumed the whole buffer: nothing remains to decode.
        assert(unescaped_from(s, n as int) == Ok::<Seq<u8>, (ErrorModel, int)>(Seq::empty()));
        assert(out@ + Seq::<u8>::empty() =~= out@);
    }
    Ok(Unescaped::Owned(out))
}

} // verus!
