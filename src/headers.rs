//! The headers at the start of a part: field name, file name and content type.
use vstd::prelude::*;
use vstd::slice::{slice_subrange, slice_to_vec};
use crate::error::Error;
use crate::matcher::{find, first_match, lemma_first_match};

verus! {

/// Carriage return and line feed, which end each header line.
pub open spec fn crlf() -> Seq<u8> {
    seq![13u8, 10u8]
}

/// The header name `content-disposition`, in lower case.
pub open spec fn disposition_key() -> Seq<u8> {
    seq![99u8, 111u8, 110u8, 116u8, 101u8, 110u8, 116u8, 45u8, 100u8, 105u8, 115u8, 112u8, 111u8, 115u8, 105u8, 116u8, 105u8, 111u8, 110u8]
}

fn disposition_key_bytes() -> (r: Vec<u8>)
    ensures
        r@ == disposition_key(),
{
    let r: Vec<u8> = vec![99u8, 111u8, 110u8, 116u8, 101u8, 110u8, 116u8, 45u8, 100u8, 105u8, 115u8, 112u8, 111u8, 115u8, 105u8, 116u8, 105u8, 111u8, 110u8];
    assert(r@ =~= disposition_key());
    r
}

/// The header name `content-type`, in lower case.
pub open spec fn content_type_key() -> Seq<u8> {
    seq![99u8, 111u8, 110u8, 116u8, 101u8, 110u8, 116u8, 45u8, 116u8, 121u8, 112u8, 101u8]
}

fn content_type_key_bytes() -> (r: Vec<u8>)
    ensures
        r@ == content_type_key(),
{
    let r: Vec<u8> = vec![99u8, 111u8, 110u8, 116u8, 101u8, 110u8, 116u8, 45u8, 116u8, 121u8, 112u8, 101u8];
    assert(r@ =~= content_type_key());
    r
}

/// What opens the `name` parameter of a `Content-Disposition` value.
pub open spec fn name_key() -> Seq<u8> {
    seq![59u8, 32u8, 110u8, 97u8, 109u8, 101u8, 61u8, 34u8]
}

fn name_key_bytes() -> (r: Vec<u8>)
    ensures
        r@ == name_key(),
{
    let r: Vec<u8> = vec![59u8, 32u8, 110u8, 97u8, 109u8, 101u8, 61u8, 34u8];
    assert(r@ =~= name_key());
    r
}

/// What opens the `filename` parameter of a `Content-Disposition` value.
pub open spec fn filename_key() -> Seq<u8> {
    seq![59u8, 32u8, 102u8, 105u8, 108u8, 101u8, 110u8, 97u8, 109u8, 101u8, 61u8, 34u8]
}

fn filename_key_bytes() -> (r: Vec<u8>)
    ensures
        r@ == filename_key(),
{
    let r: Vec<u8> = vec![59u8, 32u8, 102u8, 105u8, 108u8, 101u8, 110u8, 97u8, 109u8, 101u8, 61u8, 34u8];
    assert(r@ =~= filename_key());
    r
}

/// ASCII lower case of a byte.
pub open spec fn lower(b: u8) -> u8 {
    if 65 <= b <= 90 {
        (b + 32) as u8
    } else {
        b
    }
}

/// `line` is a header line named `key` (given in lower case), in any case.
pub open spec fn names_header(line: Seq<u8>, key: Seq<u8>) -> bool {
    key.len() < line.len() && line[key.len() as int] == 58u8 && forall|t: int|
        0 <= t < key.len() ==> lower(#[trigger] line[t]) == key[t]
}

/// The first index at or after `i` that holds no space or tab.
pub open spec fn skip_blanks(s: Seq<u8>, i: int) -> int
    decreases s.len() - i,
{
    if 0 <= i < s.len() && (s[i] == 32u8 || s[i] == 9u8) {
        skip_blanks(s, i + 1)
    } else {
        i
    }
}

/// The value of a header line named `key`: what follows the colon, without
/// leading blanks.
pub open spec fn header_value(line: Seq<u8>, key: Seq<u8>) -> Seq<u8> {
    line.subrange(skip_blanks(line, key.len() + 1 as int), line.len() as int)
}

/// The value of the first header named `key` among the CRLF-ended lines of
/// `block` that start at or after `pos`.
pub open spec fn header_in(block: Seq<u8>, pos: int, key: Seq<u8>) -> Option<Seq<u8>>
    decreases block.len() - pos,
{
    match first_match(block, crlf(), pos) {
        Some(e) => if e < pos || e + 2 > block.len() {
            None
        } else if names_header(block.subrange(pos, e), key) {
            Some(header_value(block.subrange(pos, e), key))
        } else {
            header_in(block, e + 2, key)
        },
        None => None,
    }
}

/// The quoted string of `v` that starts at index `i`, up to its closing quote
/// and without it, with each backslash dropped and the byte after it kept as
/// it is; `None` where the closing quote never comes.
pub open spec fn unquote(v: Seq<u8>, i: int) -> Option<Seq<u8>>
    decreases v.len() - i,
{
    if i < 0 || i >= v.len() {
        None
    } else if v[i] == 34u8 {
        Some(Seq::empty())
    } else if v[i] == 92u8 {
        if i + 1 < v.len() {
            match unquote(v, i + 2) {
                Some(r) => Some(seq![v[i + 1]] + r),
                None => None,
            }
        } else {
            None
        }
    } else {
        match unquote(v, i + 1) {
            Some(r) => Some(seq![v[i]] + r),
            None => None,
        }
    }
}

/// The parameter of a `Content-Disposition` value that `key` opens: `Ok(None)`
/// where it is absent, its quoted string where it is present, and an error
/// where that string is not closed.
pub open spec fn quoted_param(v: Seq<u8>, key: Seq<u8>) -> Result<Option<Seq<u8>>, Error> {
    match first_match(v, key, 0) {
        None => Ok(None),
        Some(p) => match unquote(v, p + key.len()) {
            Some(x) => Ok(Some(x)),
            None => Err(Error::MalformedPartHeader),
        },
    }
}

/// The headers of one part.
#[derive(Clone, Debug)]
pub struct PartHeaders {
    pub name: Vec<u8>,
    pub file_name: Option<Vec<u8>>,
    pub content_type: Option<Vec<u8>>,
}

/// The view of an optional byte string.
pub open spec fn opt_view(o: Option<Vec<u8>>) -> Option<Seq<u8>> {
    match o {
        Some(v) => Some(v@),
        None => None,
    }
}

/// What the header block `block` of a part says: its field name, file name and
/// content type. The field name is required.
pub open spec fn part_headers(block: Seq<u8>) -> Result<
    (Seq<u8>, Option<Seq<u8>>, Option<Seq<u8>>),
    Error,
> {
    match header_in(block, 0, disposition_key()) {
        None => Err(Error::MalformedPartHeader),
        Some(d) => match (quoted_param(d, name_key()), quoted_param(d, filename_key())) {
            (Ok(Some(n)), Ok(f)) => Ok((n, f, header_in(block, 0, content_type_key()))),
            _ => Err(Error::MalformedPartHeader),
        },
    }
}

fn lower_byte(b: u8) -> (r: u8)
    ensures
        r == lower(b),
{
    if 65 <= b && b <= 90 {
        b + 32
    } else {
        b
    }
}

fn is_header_named(line: &[u8], key: &[u8]) -> (r: bool)
    ensures
        r == names_header(line@, key@),
{
    if key.len() >= line.len() || line[key.len()] != 58 {
        return false;
    }
    let mut t: usize = 0;
    while t < key.len()
        invariant
            key@.len() < line@.len(),
            t <= key@.len(),
            forall|j: int| 0 <= j < t ==> lower(#[trigger] line@[j]) == key@[j],
        decreases key@.len() - t,
    {
        if lower_byte(line[t]) != key[t] {
            return false;
        }
        t += 1;
    }
    true
}

fn skip_blanks_from(s: &[u8], i: usize) -> (r: usize)
    requires
        i <= s@.len(),
    ensures
        r as int == skip_blanks(s@, i as int),
        i <= r <= s@.len(),
{
    let mut j = i;
    while j < s.len() && (s[j] == 32 || s[j] == 9)
        invariant
            i <= j <= s@.len(),
            skip_blanks(s@, i as int) == skip_blanks(s@, j as int),
        decreases s@.len() - j,
    {
        j += 1;
    }
    j
}

/// The value of the first header named `key` (in lower case) in `block`.
pub fn find_header(block: &[u8], key: &[u8]) -> (r: Option<Vec<u8>>)
    ensures
        opt_view(r) == header_in(block@, 0, key@),
{
    let crlf_bytes: Vec<u8> = vec![13u8, 10u8];
    assert(crlf_bytes@ =~= crlf());
    let mut pos: usize = 0;
    while pos <= block.len()
        invariant
            crlf_bytes@ == crlf(),
            pos <= block@.len() + 2,
            header_in(block@, 0, key@) == header_in(block@, pos as int, key@),
        decreases block@.len() + 2 - pos,
    {
        match find(block, crlf_bytes.as_slice(), pos) {
            None => {
                return None;
            },
            Some(e) => {
                proof {
                    lemma_first_match(block@, crlf(), pos as int);
                }
                let line = slice_subrange(block, pos, e);
                if is_header_named(line, key) {
                    let start = skip_blanks_from(line, key.len() + 1);
                    let v = slice_to_vec(slice_subrange(line, start, line.len()));
                    return Some(v);
                }
                pos = e + 2;
            },
        }
    }
    proof {
        assert(first_match(block@, crlf(), pos as int) is None);
    }
    None
}

fn param(v: &[u8], key: &[u8]) -> (r: Result<Option<Vec<u8>>, Error>)
    requires
        key@.len() > 0,
    ensures
        match r {
            Ok(o) => quoted_param(v@, key@) == Ok::<Option<Seq<u8>>, Error>(opt_view(o)),
            Err(e) => quoted_param(v@, key@) == Err::<Option<Seq<u8>>, Error>(e),
        },
{
    match find(v, key, 0) {
        None => Ok(None),
        Some(p) => {
            proof {
                lemma_first_match(v@, key@, 0);
            }
            let vl = v.len();
            assert(p + key@.len() <= vl);
            match read_quoted(v, p + key.len()) {
                Some(x) => Ok(Some(x)),
                None => Err(Error::MalformedPartHeader),
            }
        },
    }
}

fn read_quoted(v: &[u8], start: usize) -> (r: Option<Vec<u8>>)
    requires
        start <= v@.len(),
    ensures
        opt_view(r) == unquote(v@, start as int),
{
    let mut out: Vec<u8> = Vec::new();
    let mut i: usize = start;
    while i < v.len()
        invariant
            start <= i <= v@.len() + 1,
            match unquote(v@, i as int) {
                Some(rest) => unquote(v@, start as int) == Some(out@ + rest),
                None => unquote(v@, start as int) is None,
            },
        decreases v@.len() + 1 - i,
    {
        if v[i] == 34 {
            assert(out@ + Seq::<u8>::empty() =~= out@);
            return Some(out);
        }
        if v[i] == 92 {
            if i + 1 >= v.len() {
                return None;
            }
            let ghost prev = out@;
            out.push(v[i + 1]);
            proof {
                if let Some(rest) = unquote(v@, i + 2) {
                    assert(prev + (seq![v@[i + 1]] + rest) =~= out@ + rest);
                }
            }
            i += 2;
        } else {
            let ghost prev = out@;
            out.push(v[i]);
            proof {
                if let Some(rest) = unquote(v@, i + 1) {
                    assert(prev + (seq![v@[i as int]] + rest) =~= out@ + rest);
                }
            }
            i += 1;
        }
    }
    None
}

/// Reads the header block of a part: its CRLF-ended lines, up to the empty line.
pub fn parse_part_headers(block: &[u8]) -> (r: Result<PartHeaders, Error>)
    ensures
        match r {
            Ok(h) => part_headers(block@) == Ok::<_, Error>(
                (h.name@, opt_view(h.file_name), opt_view(h.content_type)),
            ),
            Err(e) => part_headers(block@) == Err::<(Seq<u8>, Option<Seq<u8>>, Option<Seq<u8>>), Error>(e),
        },
{
    let dkey = disposition_key_bytes();
    let d = match find_header(block, dkey.as_slice()) {
        Some(d) => d,
        None => {
            return Err(Error::MalformedPartHeader);
        },
    };
    let nkey = name_key_bytes();
    let fkey = filename_key_bytes();
    let name = param(d.as_slice(), nkey.as_slice());
    let file_name = param(d.as_slice(), fkey.as_slice());
    match (name, file_name) {
        (Ok(Some(name)), Ok(file_name)) => {
            let ckey = content_type_key_bytes();
            let content_type = find_header(block, ckey.as_slice());
            Ok(PartHeaders { name, file_name, content_type })
        },
        _ => Err(Error::MalformedPartHeader),
    }
}

} // verus!
