//! Wire-protocol codec: a bidirectional transform between raw bytes and
//! typed protocol values.
//!
//! Decoding is a recursive descent with one byte of lookahead on the type
//! sigil; `take_line` is its specification-level line scanner and
//! `spec_parse` the specification-level decoder that every executable
//! parser is proved against. Encoding is specified by `spec_encode`.

use vstd::prelude::*;

use crate::ProtocolError;

verus! {

pub const CR: u8 = 13;
pub const LF: u8 = 10;

/// A decoded protocol value. `BulkString` and `Array` carry the length or
/// count that was declared on the wire beside the payload itself.
#[derive(Debug, PartialEq, Eq)]
pub enum RespToken {
    Nil,
    Error(RespError),
    SimpleString(Vec<u8>),
    BulkString(Vec<u8>, usize),
    Array(Vec<RespToken>, usize),
}

/// The two protocol-level error replies the server can put on the wire.
#[derive(Debug, Clone, Copy, PartialEq, Eq, Structural)]
pub enum RespError {
    InvalidCommand,
    InvalidFormat,
}

/// The mathematical shape of a protocol value: payloads as sequences,
/// declared lengths as naturals.
pub enum TokenView {
    Nil,
    Error(RespError),
    Simple(Seq<u8>),
    Bulk(Seq<u8>, nat),
    Arr(Seq<TokenView>, nat),
}

impl DeepView for RespToken {
    type V = TokenView;

    open spec fn deep_view(&self) -> TokenView
        decreases self,
    {
        match self {
            RespToken::Nil => TokenView::Nil,
            RespToken::Error(e) => TokenView::Error(*e),
            RespToken::SimpleString(s) => TokenView::Simple(s@),
            RespToken::BulkString(b, n) => TokenView::Bulk(b@, *n as nat),
            RespToken::Array(arr, n) => TokenView::Arr(deep_view_list(arr@), *n as nat),
        }
    }
}

/// The element-wise mathematical shape of a sequence of tokens.
pub open spec fn deep_view_list(ts: Seq<RespToken>) -> Seq<TokenView>
    decreases ts,
{
    if ts.len() == 0 {
        Seq::empty()
    } else {
        deep_view_list(ts.drop_last()).push(ts.last().deep_view())
    }
}

/// `deep_view_list` agrees with viewing each element on its own.
pub proof fn lemma_deep_view_list(ts: Seq<RespToken>)
    ensures
        deep_view_list(ts).len() == ts.len(),
        forall|i: int| 0 <= i < ts.len() ==> deep_view_list(ts)[i] == ts[i].deep_view(),
    decreases ts.len(),
{
    if ts.len() > 0 {
        lemma_deep_view_list(ts.drop_last());
        assert(deep_view_list(ts) == deep_view_list(ts.drop_last()).push(ts.last().deep_view()));
        assert forall|i: int| 0 <= i < ts.len() implies deep_view_list(ts)[i]
            == ts[i].deep_view() by {
            if i < ts.len() - 1 {
                assert(ts.drop_last()[i] == ts[i]);
            } else {
                assert(ts.last() == ts[i]);
            }
        }
    }
}

/// True of a byte sequence that contains neither CR nor LF.
pub open spec fn crlf_free(s: Seq<u8>) -> bool {
    forall|i: int| 0 <= i < s.len() ==> s[i] != CR && s[i] != LF
}

pub open spec fn is_digit(b: u8) -> bool {
    48 <= b <= 57
}

/// A non-empty run of ASCII decimal digits.
pub open spec fn is_dec(s: Seq<u8>) -> bool {
    s.len() > 0 && forall|i: int| 0 <= i < s.len() ==> is_digit(s[i])
}

/// The value of a run of ASCII decimal digits.
pub open spec fn dec_val(s: Seq<u8>) -> nat
    decreases s.len(),
{
    if s.len() == 0 {
        0
    } else {
        (dec_val(s.drop_last()) * 10 + (s.last() - 48)) as nat
    }
}

/// The decimal digits of `n`, most significant first, with no leading
/// zeros and no sign.
pub open spec fn dec_digits(n: nat) -> Seq<u8>
    decreases n,
{
    if n < 10 {
        seq![(n + 48) as u8]
    } else {
        dec_digits(n / 10).push((n % 10 + 48) as u8)
    }
}

/// Splits `s` at its first CRLF: the line's content and the number of
/// bytes consumed, content included. Fails on a bare LF, on a CR not
/// followed by LF, and when the input ends before a CRLF.
pub open spec fn take_line(s: Seq<u8>) -> Result<(Seq<u8>, nat), ProtocolError>
    decreases s.len(),
{
    if s.len() == 0 {
        Err(ProtocolError::Format)
    } else if s[0] == CR {
        if s.len() >= 2 && s[1] == LF {
            Ok((Seq::empty(), 2))
        } else {
            Err(ProtocolError::Format)
        }
    } else if s[0] == LF {
        Err(ProtocolError::Format)
    } else {
        match take_line(s.skip(1)) {
            Ok((content, used)) => Ok((seq![s[0]].add(content), used + 1)),
            Err(e) => Err(e),
        }
    }
}

/// Decoder for the body of a simple string, after the `+` sigil.
pub open spec fn spec_parse_simple(s: Seq<u8>) -> Result<(TokenView, nat), ProtocolError> {
    match take_line(s) {
        Ok((content, used)) => Ok((TokenView::Simple(content), used)),
        Err(e) => Err(e),
    }
}

/// Decoder for the body of a bulk string, after the `$` sigil: a decimal
/// length line, exactly that many payload bytes, then a CRLF.
pub open spec fn spec_parse_bulk(s: Seq<u8>) -> Result<(TokenView, nat), ProtocolError> {
    match take_line(s) {
        Ok((digits, used)) => {
            if !is_dec(digits) || used > s.len() {
                Err(ProtocolError::Format)
            } else {
                let n = dec_val(digits);
                let rest = s.skip(used as int);
                if rest.len() < n + 2 {
                    Err(ProtocolError::Format)
                } else if rest[n as int] != CR || rest[n as int + 1] != LF {
                    Err(ProtocolError::Format)
                } else {
                    Ok((TokenView::Bulk(rest.subrange(0, n as int), n), used + n + 2))
                }
            }
        },
        Err(e) => Err(e),
    }
}

/// The specification-level decoder: one complete value read from the
/// front of `s`, together with the number of bytes it occupied.
pub open spec fn spec_parse(s: Seq<u8>) -> Result<(TokenView, nat), ProtocolError>
    decreases s.len(), 0nat,
{
    if s.len() == 0 {
        Err(ProtocolError::Format)
    } else if s[0] == 43 {
        match spec_parse_simple(s.skip(1)) {
            Ok((v, used)) => Ok((v, 1 + used)),
            Err(e) => Err(e),
        }
    } else if s[0] == 36 {
        match spec_parse_bulk(s.skip(1)) {
            Ok((v, used)) => Ok((v, 1 + used)),
            Err(e) => Err(e),
        }
    } else if s[0] == 42 {
        match spec_parse_arr(s.skip(1)) {
            Ok((v, used)) => Ok((v, 1 + used)),
            Err(e) => Err(e),
        }
    } else {
        Err(ProtocolError::UnsupportedType(s[0]))
    }
}

/// Decoder for the body of an array, after the `*` sigil: a decimal count
/// line, then exactly that many child values. A count that more bytes
/// than remain could not satisfy is a framing failure outright, since
/// every child occupies at least one byte.
pub open spec fn spec_parse_arr(s: Seq<u8>) -> Result<(TokenView, nat), ProtocolError>
    decreases s.len(), 2nat,
{
    match take_line(s) {
        Ok((digits, used)) => {
            if !is_dec(digits) || used < 1 || used > s.len() {
                Err(ProtocolError::Format)
            } else if dec_val(digits) > s.len() - used {
                Err(ProtocolError::Format)
            } else {
                match spec_parse_elems(s.skip(used as int), dec_val(digits)) {
                    Ok((elems, used2)) => Ok((
                        TokenView::Arr(elems, dec_val(digits)),
                        used + used2,
                    )),
                    Err(e) => Err(e),
                }
            }
        },
        Err(e) => Err(e),
    }
}

/// Decodes exactly `n` consecutive values from the front of `s`.
pub open spec fn spec_parse_elems(s: Seq<u8>, n: nat) -> Result<
    (Seq<TokenView>, nat),
    ProtocolError,
>
    decreases s.len(), n,
{
    if n == 0 {
        Ok((Seq::empty(), 0))
    } else {
        match spec_parse(s) {
            Ok((v, used)) => {
                if used < 1 || used > s.len() {
                    Err(ProtocolError::Format)
                } else {
                    match spec_parse_elems(s.skip(used as int), (n - 1) as nat) {
                        Ok((vs, used2)) => Ok((seq![v].add(vs), used + used2)),
                        Err(e) => Err(e),
                    }
                }
            },
            Err(e) => Err(e),
        }
    }
}

/// A whole frame: one value that consumes the entire input; leftover
/// bytes are a `TrailingData` failure.
pub open spec fn spec_deserialize(s: Seq<u8>) -> Result<TokenView, ProtocolError> {
    match spec_parse(s) {
        Ok((v, used)) => if used == s.len() {
            Ok(v)
        } else {
            Err(ProtocolError::TrailingData)
        },
        Err(e) => Err(e),
    }
}

/// The wire form of one protocol value. A bulk string is framed with its
/// declared length, not a recomputed one; an array is the concatenation
/// of its children's encodings with no count prefix of its own; `Nil` is
/// the nil bulk string.
pub open spec fn spec_encode(v: TokenView) -> Seq<u8>
    decreases v,
{
    match v {
        TokenView::Nil => seq![36u8, 45u8, 49u8, CR, LF],
        TokenView::Error(e) => spec_error_bytes(e),
        TokenView::Simple(s) => seq![43u8].add(s).add(seq![CR, LF]),
        TokenView::Bulk(b, n) => seq![36u8].add(dec_digits(n)).add(seq![CR, LF]).add(b).add(
            seq![CR, LF],
        ),
        TokenView::Arr(elems, _n) => spec_encode_list(elems),
    }
}

/// The concatenation of the encodings of a sequence of values.
pub open spec fn spec_encode_list(elems: Seq<TokenView>) -> Seq<u8>
    decreases elems,
{
    if elems.len() == 0 {
        Seq::empty()
    } else {
        spec_encode_list(elems.drop_last()).add(spec_encode(elems.last()))
    }
}

/// `-ERR unknown command\r\n` or `-ERR unknown format\r\n`.
pub open spec fn spec_error_bytes(e: RespError) -> Seq<u8> {
    match e {
        RespError::InvalidCommand => seq![
            45u8, 69u8, 82u8, 82u8, 32u8, 117u8, 110u8, 107u8, 110u8, 111u8, 119u8, 110u8,
            32u8, 99u8, 111u8, 109u8, 109u8, 97u8, 110u8, 100u8, CR, LF,
        ],
        RespError::InvalidFormat => seq![
            45u8, 69u8, 82u8, 82u8, 32u8, 117u8, 110u8, 107u8, 110u8, 111u8, 119u8, 110u8,
            32u8, 102u8, 111u8, 114u8, 109u8, 97u8, 116u8, CR, LF,
        ],
    }
}

/// `take_line` on an input whose first CR stands at `k`, directly
/// followed by LF: the content is everything before it.
proof fn lemma_take_line_found(s: Seq<u8>, k: int)
    requires
        0 <= k < s.len(),
        forall|j: int| 0 <= j < k ==> s[j] != CR && s[j] != LF,
        s[k] == CR,
        k + 1 < s.len(),
        s[k + 1] == LF,
    ensures
        take_line(s) == Ok::<_, ProtocolError>((s.subrange(0, k), (k + 2) as nat)),
    decreases k,
{
    if k == 0 {
        assert(s.subrange(0, 0) =~= Seq::<u8>::empty());
    } else {
        lemma_take_line_found(s.skip(1), k - 1);
        assert(seq![s[0]].add(s.skip(1).subrange(0, k - 1)) =~= s.subrange(0, k));
    }
}

/// `take_line` fails when the scan for a CRLF runs into a bare LF, a CR
/// at the very end, a CR not followed by LF, or the end of the input.
proof fn lemma_take_line_err(s: Seq<u8>, k: int)
    requires
        0 <= k <= s.len(),
        forall|j: int| 0 <= j < k ==> s[j] != CR && s[j] != LF,
        k == s.len() || s[k] == LF || (s[k] == CR && (k + 1 >= s.len() || s[k + 1] != LF)),
    ensures
        take_line(s) == Err::<(Seq<u8>, nat), _>(ProtocolError::Format),
    decreases k,
{
    if k > 0 {
        lemma_take_line_err(s.skip(1), k - 1);
    }
}

/// Reads the line that starts at `pos` up to its CRLF terminator,
/// returning the content and the position just past the terminator,
/// exactly as `take_line` describes.
pub fn parse_until_eol(input: &[u8], pos: usize) -> (r: Result<(Vec<u8>, usize), ProtocolError>)
    requires
        pos <= input@.len(),
    ensures
        match r {
            Ok((content, newpos)) => pos < newpos <= input@.len() && take_line(
                input@.skip(pos as int),
            ) == Ok::<_, ProtocolError>((content@, (newpos - pos) as nat)),
            Err(e) => take_line(input@.skip(pos as int)) == Err::<(Seq<u8>, nat), _>(e),
        },
{
    let ghost s = input@.skip(pos as int);
    let mut i: usize = pos;
    loop
        invariant
            pos <= i <= input@.len(),
            s == input@.skip(pos as int),
            forall|j: int| pos <= j < i ==> input@[j] != CR && input@[j] != LF,
        decreases input@.len() - i,
    {
        if i >= input.len() {
            proof {
                lemma_take_line_err(s, i - pos);
            }
            return Err(ProtocolError::Format);
        }
        let b = *vstd::slice::slice_index_get(input, i);
        if b == CR {
            if i + 1 < input.len() && *vstd::slice::slice_index_get(input, i + 1) == LF {
                let content = vstd::slice::slice_to_vec(
                    vstd::slice::slice_subrange(input, pos, i),
                );
                proof {
                    lemma_take_line_found(s, i - pos);
                    assert(s.subrange(0, i - pos) =~= input@.subrange(pos as int, i as int));
                }
                return Ok((content, i + 2));
            } else {
                proof {
                    lemma_take_line_err(s, i - pos);
                }
                return Err(ProtocolError::Format);
            }
        } else if b == LF {
            proof {
                lemma_take_line_err(s, i - pos);
            }
            return Err(ProtocolError::Format);
        }
        i = i + 1;
    }
}

/// The value of a digit run grows with its length.
pub(crate) proof fn lemma_dec_val_prefix(s: Seq<u8>, j: int)
    requires
        0 <= j <= s.len(),
        forall|i: int| 0 <= i < s.len() ==> is_digit(s[i]),
    ensures
        dec_val(s.subrange(0, j)) <= dec_val(s),
    decreases s.len() - j,
{
    if j < s.len() {
        lemma_dec_val_prefix(s, j + 1);
        assert(s.subrange(0, j + 1).drop_last() =~= s.subrange(0, j));
        assert(dec_val(s.subrange(0, j + 1)) == dec_val(s.subrange(0, j)) * 10 + (s[j]
            - 48)) by {
            assert(s.subrange(0, j + 1).last() == s[j]);
        }
    } else {
        assert(s.subrange(0, j) =~= s);
    }
}

/// Parses a non-empty all-digit byte run as a decimal number; `None` when
/// the run is not such a run or its value does not fit a `usize`.
fn parse_dec(digits: &Vec<u8>) -> (r: Option<usize>)
    ensures
        match r {
            Some(n) => is_dec(digits@) && n as nat == dec_val(digits@),
            None => !is_dec(digits@) || dec_val(digits@) > usize::MAX,
        },
{
    if digits.len() == 0 {
        return None;
    }
    let mut acc: usize = 0;
    let mut i: usize = 0;
    loop
        invariant
            0 <= i <= digits@.len(),
            digits@.len() > 0,
            forall|j: int| 0 <= j < i ==> is_digit(digits@[j]),
            acc as nat == dec_val(digits@.subrange(0, i as int)),
        decreases digits@.len() - i,
    {
        if i >= digits.len() {
            proof {
                assert(digits@.subrange(0, i as int) =~= digits@);
            }
            return Some(acc);
        }
        let b = digits[i];
        if b < 48 || b > 57 {
            return None;
        }
        proof {
            assert(digits@.subrange(0, i + 1).drop_last() =~= digits@.subrange(0, i as int));
            assert(digits@.subrange(0, i + 1).last() == digits@[i as int]);
        }
        let step = match acc.checked_mul(10) {
            Some(m) => m.checked_add((b - 48) as usize),
            None => None,
        };
        match step {
            Some(next) => {
                acc = next;
            },
            None => {
                proof {
                    if is_dec(digits@) {
                        lemma_dec_val_prefix(digits@, i + 1);
                    }
                }
                return None;
            },
        }
        i = i + 1;
    }
}

/// Writes `n` in decimal, matching `dec_digits`.
fn enc_dec(n: usize) -> (r: Vec<u8>)
    ensures
        r@ == dec_digits(n as nat),
    decreases n,
{
    if n < 10 {
        let mut v: Vec<u8> = Vec::new();
        v.push((n as u8) + 48);
        proof {
            assert(v@ =~= dec_digits(n as nat));
        }
        v
    } else {
        let mut v = enc_dec(n / 10);
        v.push(((n % 10) as u8) + 48);
        v
    }
}

/// Byte-for-byte equality of two byte vectors.
pub(crate) fn vec_u8_eq(a: &Vec<u8>, b: &Vec<u8>) -> (r: bool)
    ensures
        r == (a@ == b@),
{
    if a.len() != b.len() {
        return false;
    }
    let mut i: usize = 0;
    loop
        invariant
            0 <= i <= a@.len(),
            a@.len() == b@.len(),
            forall|j: int| 0 <= j < i ==> a@[j] == b@[j],
        decreases a@.len() - i,
    {
        if i >= a.len() {
            proof {
                assert(a@ =~= b@);
            }
            return true;
        }
        if a[i] != b[i] {
            return false;
        }
        i = i + 1;
    }
}

/// Decodes the simple-string body that starts at `pos`, just past the
/// `+` sigil, exactly as `spec_parse_simple` describes.
pub fn parse_simple_string(input: &[u8], pos: usize) -> (r: Result<
    (RespToken, usize),
    ProtocolError,
>)
    requires
        pos <= input@.len(),
    ensures
        match r {
            Ok((v, newpos)) => pos < newpos <= input@.len() && spec_parse_simple(
                input@.skip(pos as int),
            ) == Ok::<_, ProtocolError>((v.deep_view(), (newpos - pos) as nat)),
            Err(e) => spec_parse_simple(input@.skip(pos as int)) == Err::<
                (TokenView, nat),
                _,
            >(e),
        },
{
    match parse_until_eol(input, pos) {
        Ok((content, newpos)) => Ok((RespToken::SimpleString(content), newpos)),
        Err(e) => Err(e),
    }
}

/// Decodes the bulk-string body that starts at `pos`, just past the `$`
/// sigil, exactly as `spec_parse_bulk` describes: a decimal length line,
/// that many payload bytes, then a closing CRLF.
pub fn parse_bulk_string(input: &[u8], pos: usize) -> (r: Result<
    (RespToken, usize),
    ProtocolError,
>)
    requires
        pos <= input@.len(),
    ensures
        match r {
            Ok((v, newpos)) => pos < newpos <= input@.len() && spec_parse_bulk(
                input@.skip(pos as int),
            ) == Ok::<_, ProtocolError>((v.deep_view(), (newpos - pos) as nat)),
            Err(e) => spec_parse_bulk(input@.skip(pos as int)) == Err::<
                (TokenView, nat),
                _,
            >(e),
        },
{
    let ghost s = input@.skip(pos as int);
    let ilen = input.len();
    let (digits, p1) = match parse_until_eol(input, pos) {
        Ok(x) => x,
        Err(e) => {
            return Err(e);
        },
    };
    let n = match parse_dec(&digits) {
        Some(n) => n,
        None => {
            proof {
                if is_dec(digits@) {
                    // The declared length does not fit a machine word, so
                    // it certainly exceeds what remains of the input.
                    assert(s.skip((p1 - pos) as int).len() < dec_val(digits@) + 2);
                }
            }
            return Err(ProtocolError::Format);
        },
    };
    let ghost rest = s.skip((p1 - pos) as int);
    proof {
        assert(rest =~= input@.skip(p1 as int));
    }
    if ilen - p1 < 2 || n > ilen - p1 - 2 {
        return Err(ProtocolError::Format);
    }
    let payload = vstd::slice::slice_to_vec(vstd::slice::slice_subrange(input, p1, p1 + n));
    proof {
        assert(payload@ =~= rest.subrange(0, n as int));
    }
    if *vstd::slice::slice_index_get(input, p1 + n) != CR || *vstd::slice::slice_index_get(
        input,
        p1 + n + 1,
    ) != LF {
        return Err(ProtocolError::Format);
    }
    Ok((RespToken::BulkString(payload, n), p1 + n + 2))
}

/// Decodes the array body that starts at `pos`, just past the `*` sigil,
/// exactly as `spec_parse_arr` describes: a decimal count line, then that
/// many child values in sequence.
pub fn parse_array(input: &[u8], pos: usize) -> (r: Result<(RespToken, usize), ProtocolError>)
    requires
        pos <= input@.len(),
    ensures
        match r {
            Ok((v, newpos)) => pos < newpos <= input@.len() && spec_parse_arr(
                input@.skip(pos as int),
            ) == Ok::<_, ProtocolError>((v.deep_view(), (newpos - pos) as nat)),
            Err(e) => spec_parse_arr(input@.skip(pos as int)) == Err::<
                (TokenView, nat),
                _,
            >(e),
        },
    decreases input@.len() - pos, 1nat,
{
    let ghost s = input@.skip(pos as int);
    let ilen = input.len();
    let (digits, p1) = match parse_until_eol(input, pos) {
        Ok(x) => x,
        Err(e) => {
            return Err(e);
        },
    };
    let n = match parse_dec(&digits) {
        Some(n) => n,
        None => {
            proof {
                if is_dec(digits@) {
                    assert(dec_val(digits@) > s.len() - (p1 - pos));
                }
            }
            return Err(ProtocolError::Format);
        },
    };
    if n > ilen - p1 {
        return Err(ProtocolError::Format);
    }
    let mut toks: Vec<RespToken> = Vec::new();
    let mut p: usize = p1;
    let mut i: usize = 0;
    proof {
        assert(deep_view_list(toks@) =~= Seq::<TokenView>::empty());
        if let Ok((vs, u)) = spec_parse_elems(input@.skip(p1 as int), n as nat) {
            assert(deep_view_list(toks@).add(vs) =~= vs);
        }
    }
    while i < n
        invariant
            pos < p1 <= p <= input@.len(),
            0 <= i <= n,
            s == input@.skip(pos as int),
            take_line(s) == Ok::<_, ProtocolError>((digits@, (p1 - pos) as nat)),
            is_dec(digits@),
            n as nat == dec_val(digits@),
            n <= input@.len() - p1,
            toks@.len() == i,
            spec_parse_elems(input@.skip(p1 as int), n as nat) == (match spec_parse_elems(
                input@.skip(p as int),
                (n - i) as nat,
            ) {
                Ok((vs, u)) => Ok::<_, ProtocolError>((
                    deep_view_list(toks@).add(vs),
                    ((p - p1) + u) as nat,
                )),
                Err(e) => Err(e),
            }),
        decreases n - i,
    {
        match parse_input(input, p) {
            Ok((v, np)) => {
                let ghost prev = toks@;
                let ghost oldp = p;
                toks.push(v);
                p = np;
                i = i + 1;
                proof {
                    lemma_deep_view_list(prev);
                    lemma_deep_view_list(prev.push(v));
                    assert(toks@ == prev.push(v));
                    assert(deep_view_list(prev.push(v)) =~= deep_view_list(prev).push(
                        v.deep_view(),
                    ));
                    assert(input@.skip(oldp as int).skip((np - oldp) as int) =~= input@.skip(
                        np as int,
                    ));
                    if let Ok((vs2, u2)) = spec_parse_elems(
                        input@.skip(np as int),
                        (n - i) as nat,
                    ) {
                        assert(deep_view_list(prev).add(seq![v.deep_view()].add(vs2))
                            =~= deep_view_list(prev).push(v.deep_view()).add(vs2));
                    }
                }
            },
            Err(e) => {
                proof {
                    assert(spec_parse_elems(input@.skip(p as int), (n - i) as nat) == Err::<
                        (Seq<TokenView>, nat),
                        _,
                    >(e));
                    assert(s.skip((p1 - pos) as int) =~= input@.skip(p1 as int));
                }
                return Err(e);
            },
        }
    }
    proof {
        assert(deep_view_list(toks@).add(Seq::<TokenView>::empty()) =~= deep_view_list(toks@));
        assert(s.skip((p1 - pos) as int) =~= input@.skip(p1 as int));
    }
    Ok((RespToken::Array(toks, n), p))
}

/// Decodes one complete value from the front of the input, starting at
/// `pos`, dispatching on the leading sigil byte exactly as `spec_parse`
/// describes.
pub fn parse_input(input: &[u8], pos: usize) -> (r: Result<(RespToken, usize), ProtocolError>)
    requires
        pos <= input@.len(),
    ensures
        match r {
            Ok((v, newpos)) => pos < newpos <= input@.len() && spec_parse(
                input@.skip(pos as int),
            ) == Ok::<_, ProtocolError>((v.deep_view(), (newpos - pos) as nat)),
            Err(e) => spec_parse(input@.skip(pos as int)) == Err::<(TokenView, nat), _>(e),
        },
    decreases input@.len() - pos, 0nat,
{
    let ghost s = input@.skip(pos as int);
    if pos >= input.len() {
        return Err(ProtocolError::Format);
    }
    proof {
        assert(s.skip(1) =~= input@.skip(pos + 1));
    }
    let b = *vstd::slice::slice_index_get(input, pos);
    if b == 43 {
        match parse_simple_string(input, pos + 1) {
            Ok((v, np)) => Ok((v, np)),
            Err(e) => Err(e),
        }
    } else if b == 36 {
        match parse_bulk_string(input, pos + 1) {
            Ok((v, np)) => Ok((v, np)),
            Err(e) => Err(e),
        }
    } else if b == 42 {
        match parse_array(input, pos + 1) {
            Ok((v, np)) => Ok((v, np)),
            Err(e) => Err(e),
        }
    } else {
        Err(ProtocolError::UnsupportedType(b))
    }
}

/// The payload of a scalar token; arrays, nil and errors carry none.
pub open spec fn unpack_view(v: TokenView) -> Option<Seq<u8>> {
    match v {
        TokenView::Simple(s) => Some(s),
        TokenView::Bulk(b, _) => Some(b),
        _ => None,
    }
}

impl RespToken {
    /// The payload bytes of a simple or bulk string.
    pub fn unpack(&self) -> (r: &Vec<u8>)
        requires
            unpack_view(self.deep_view()) is Some,
        ensures
            Some(r@) == unpack_view(self.deep_view()),
    {
        match self {
            RespToken::SimpleString(val) => val,
            RespToken::BulkString(val, _) => val,
            RespToken::Nil => unreached(),
            RespToken::Error(_) => unreached(),
            RespToken::Array(_, _) => unreached(),
        }
    }

    /// Decodes one complete frame: a single value that consumes the whole
    /// input, exactly as `spec_deserialize` describes.
    pub fn deserialize(input: &[u8]) -> (r: Result<RespToken, ProtocolError>)
        ensures
            match r {
                Ok(v) => spec_deserialize(input@) == Ok::<_, ProtocolError>(v.deep_view()),
                Err(e) => spec_deserialize(input@) == Err::<TokenView, _>(e),
            },
    {
        proof {
            assert(input@.skip(0) =~= input@);
        }
        match parse_input(input, 0) {
            Ok((v, newpos)) => {
                if newpos == input.len() {
                    Ok(v)
                } else {
                    Err(ProtocolError::TrailingData)
                }
            },
            Err(e) => Err(e),
        }
    }

    /// Encodes one value for the wire, exactly as `spec_encode` describes.
    /// Encoding is total: the `Result` is always `Ok`.
    #[verifier::loop_isolation(false)]
    pub fn serialize(token: &RespToken) -> (r: Result<Vec<u8>, ProtocolError>)
        ensures
            r matches Ok(bytes) && bytes@ == spec_encode(token.deep_view()),
        decreases token,
    {
        match token {
            RespToken::Nil => {
                let out = vec![36u8, 45u8, 49u8, CR, LF];
                proof {
                    assert(out@ =~= spec_encode(token.deep_view()));
                }
                Ok(out)
            },
            RespToken::Error(e) => {
                let out = match e {
                    RespError::InvalidCommand => vec![
                        45u8, 69u8, 82u8, 82u8, 32u8, 117u8, 110u8, 107u8, 110u8, 111u8,
                        119u8, 110u8, 32u8, 99u8, 111u8, 109u8, 109u8, 97u8, 110u8, 100u8,
                        CR, LF,
                    ],
                    RespError::InvalidFormat => vec![
                        45u8, 69u8, 82u8, 82u8, 32u8, 117u8, 110u8, 107u8, 110u8, 111u8,
                        119u8, 110u8, 32u8, 102u8, 111u8, 114u8, 109u8, 97u8, 116u8, CR, LF,
                    ],
                };
                proof {
                    assert(out@ =~= spec_encode(token.deep_view()));
                }
                Ok(out)
            },
            RespToken::SimpleString(s) => {
                let mut out: Vec<u8> = Vec::new();
                out.push(43);
                push_bytes(&mut out, s);
                out.push(CR);
                out.push(LF);
                proof {
                    assert(out@ =~= spec_encode(token.deep_view()));
                }
                Ok(out)
            },
            RespToken::BulkString(b, n) => {
                let mut out: Vec<u8> = Vec::new();
                out.push(36);
                let digits = enc_dec(*n);
                push_bytes(&mut out, &digits);
                out.push(CR);
                out.push(LF);
                push_bytes(&mut out, b);
                out.push(CR);
                out.push(LF);
                proof {
                    assert(out@ =~= spec_encode(token.deep_view()));
                }
                Ok(out)
            },
            RespToken::Array(arr, _n) => {
                let mut out: Vec<u8> = Vec::new();
                let mut i: usize = 0;
                proof {
                    lemma_deep_view_list(arr@);
                    assert(out@ =~= spec_encode_list(deep_view_list(arr@).take(0)));
                }
                while i < arr.len()
                    invariant
                        0 <= i <= arr@.len(),
                        deep_view_list(arr@).len() == arr@.len(),
                        forall|j: int| 0 <= j < arr@.len() ==> deep_view_list(arr@)[j]
                            == arr@[j].deep_view(),
                        out@ == spec_encode_list(deep_view_list(arr@).take(i as int)),
                    decreases arr@.len() - i,
                {
                    let piece = match RespToken::serialize(&arr[i]) {
                        Ok(piece) => piece,
                        Err(e) => {
                            return Err(e);
                        },
                    };
                    let ghost prefix = deep_view_list(arr@).take(i as int);
                    push_bytes(&mut out, &piece);
                    i = i + 1;
                    proof {
                        let whole = deep_view_list(arr@).take(i as int);
                        assert(whole.drop_last() =~= prefix);
                        assert(whole.last() == deep_view_list(arr@)[i - 1]);
                    }
                }
                proof {
                    assert(deep_view_list(arr@).take(arr@.len() as int) =~= deep_view_list(
                        arr@,
                    ));
                }
                Ok(out)
            },
        }
    }
}

/// The decimal digits of `n` form a digit run that reads back as `n`.
proof fn lemma_dec_digits(n: nat)
    ensures
        is_dec(dec_digits(n)),
        dec_val(dec_digits(n)) == n,
    decreases n,
{
    if n < 10 {
        let dd = dec_digits(n);
        assert(dd =~= seq![(n + 48) as u8]);
        assert(dd.last() == (n + 48) as u8);
        assert(dd.drop_last() =~= Seq::<u8>::empty());
        assert(dec_val(Seq::<u8>::empty()) == 0);
        assert(dec_val(dd) == ((n + 48) as u8 - 48));
    } else {
        lemma_dec_digits(n / 10);
        vstd::arithmetic::div_mod::lemma_fundamental_div_mod(n as int, 10);
        let dd = dec_digits(n);
        assert(dd == dec_digits(n / 10).push((n % 10 + 48) as u8));
        assert(dd.drop_last() =~= dec_digits(n / 10));
        assert(dd.last() == (n % 10 + 48) as u8);
        assert(dec_val(dd) == (n / 10) * 10 + n % 10);
    }
}

/// `take_line` recovers a CRLF-free line placed in front of its own
/// terminator and arbitrary following bytes.
proof fn lemma_take_line_of(content: Seq<u8>, rest: Seq<u8>)
    requires
        crlf_free(content),
    ensures
        take_line(content.add(seq![CR, LF]).add(rest)) == Ok::<_, ProtocolError>((
            content,
            content.len() + 2,
        )),
    decreases content.len(),
{
    let s = content.add(seq![CR, LF]).add(rest);
    if content.len() == 0 {
        assert(s[0] == CR && s[1] == LF);
        assert(Seq::<u8>::empty() =~= content);
    } else {
        lemma_take_line_of(content.drop_first(), rest);
        assert(s.skip(1) =~= content.drop_first().add(seq![CR, LF]).add(rest));
        assert(s[0] == content[0]);
        assert(seq![content[0]].add(content.drop_first()) =~= content);
    }
}

/// Round trip for scalar values: a simple string without embedded CR or
/// LF, or a bulk string whose declared length equals its payload length,
/// decodes from its own encoding back to itself, with no bytes left over.
/// Arrays are outside this law because their wire encoding carries no
/// count prefix of its own, while decoding one requires it.
pub proof fn lemma_round_trip_scalar(v: TokenView)
    requires
        match v {
            TokenView::Simple(s) => crlf_free(s),
            TokenView::Bulk(b, n) => n == b.len(),
            _ => false,
        },
    ensures
        spec_deserialize(spec_encode(v)) == Ok::<_, ProtocolError>(v),
{
    match v {
        TokenView::Simple(s) => {
            let enc = spec_encode(v);
            assert(enc == seq![43u8].add(s).add(seq![CR, LF]));
            assert(enc[0] == 43);
            lemma_take_line_of(s, Seq::<u8>::empty());
            assert(enc.skip(1) =~= s.add(seq![CR, LF]).add(Seq::<u8>::empty()));
            assert(spec_parse(enc) == Ok::<_, ProtocolError>((v, enc.len() as nat)));
        },
        TokenView::Bulk(b, n) => {
            let enc = spec_encode(v);
            let dd = dec_digits(n);
            lemma_dec_digits(n);
            assert(crlf_free(dd)) by {
                assert(forall|i: int| 0 <= i < dd.len() ==> is_digit(dd[i]));
            }
            assert(enc == seq![36u8].add(dd).add(seq![CR, LF]).add(b).add(seq![CR, LF]));
            assert(enc[0] == 36);
            let tail = enc.skip(1);
            lemma_take_line_of(dd, b.add(seq![CR, LF]));
            assert(tail =~= dd.add(seq![CR, LF]).add(b.add(seq![CR, LF])));
            assert(take_line(tail) == Ok::<_, ProtocolError>((dd, dd.len() + 2)));
            let used = dd.len() + 2;
            let rest = tail.skip(used as int);
            assert(rest =~= b.add(seq![CR, LF]));
            assert(rest.len() == n + 2);
            assert(rest[n as int] == CR && rest[n as int + 1] == LF);
            assert(rest.subrange(0, n as int) =~= b);
            assert(spec_parse_bulk(tail) == Ok::<_, ProtocolError>((v, used + n + 2)));
            assert(enc.len() == 1 + used + n + 2);
            assert(spec_parse(enc) == Ok::<_, ProtocolError>((v, enc.len() as nat)));
        },
        _ => {},
    }
}

/// An owned copy of a byte vector.
pub(crate) fn clone_bytes(src: &Vec<u8>) -> (r: Vec<u8>)
    ensures
        r@ == src@,
{
    let mut out: Vec<u8> = Vec::new();
    push_bytes(&mut out, src);
    proof {
        assert(out@ =~= src@);
    }
    out
}

/// Appends `src` to `out`.
pub(crate) fn push_bytes(out: &mut Vec<u8>, src: &Vec<u8>)
    ensures
        final(out)@ == old(out)@.add(src@),
{
    let mut i: usize = 0;
    loop
        invariant
            0 <= i <= src@.len(),
            out@ == old(out)@.add(src@.take(i as int)),
        decreases src@.len() - i,
    {
        if i >= src.len() {
            proof {
                assert(src@.take(i as int) =~= src@);
            }
            return ;
        }
        out.push(src[i]);
        proof {
            assert(old(out)@.add(src@.take(i as int)).push(src@[i as int]) =~= old(out)@.add(
                src@.take(i + 1),
            ));
        }
        i = i + 1;
    }
}

} // verus!
