use vstd::prelude::*;
use crate::mesh::Corner;

verus! {

/// Whether `b` is ASCII whitespace.
pub open spec fn is_ws(b: u8) -> bool {
    b == 0x20 || b == 0x09 || b == 0x0a || b == 0x0b || b == 0x0c || b == 0x0d
}

/// The maximal runs of non-whitespace bytes of `s`, in order.
pub open spec fn tokens(s: Seq<u8>) -> Seq<Seq<u8>>
    decreases s.len(),
{
    if s.len() == 0 {
        seq![]
    } else {
        let rest = tokens(s.drop_last());
        if is_ws(s.last()) {
            rest
        } else if s.len() >= 2 && !is_ws(s[s.len() - 2]) {
            rest.update(rest.len() - 1, rest.last().push(s.last()))
        } else {
            rest.push(seq![s.last()])
        }
    }
}

/// The pieces of `s` between the bytes equal to `sep`; there is always at least one.
pub open spec fn pieces(s: Seq<u8>, sep: u8) -> Seq<Seq<u8>>
    decreases s.len(),
{
    if s.len() == 0 {
        seq![seq![]]
    } else {
        let rest = pieces(s.drop_last(), sep);
        if s.last() == sep {
            rest.push(seq![])
        } else {
            rest.update(rest.len() - 1, rest.last().push(s.last()))
        }
    }
}

proof fn lemma_tokens_shape(s: Seq<u8>)
    ensures
        s.len() > 0 && !is_ws(s.last()) ==> tokens(s).len() > 0,
        forall|k: int| 0 <= k < tokens(s).len() ==> (#[trigger] tokens(s)[k]).len() > 0,
    decreases s.len(),
{
    if s.len() > 0 {
        let p = s.drop_last();
        lemma_tokens_shape(p);
        let rest = tokens(p);
        if !is_ws(s.last()) && s.len() >= 2 && !is_ws(s[s.len() - 2]) {
            assert(p.last() == s[s.len() - 2]);
            let t = tokens(s);
            assert forall|k: int| 0 <= k < t.len() implies (#[trigger] t[k]).len() > 0 by {
                if k < rest.len() - 1 {
                    assert(t[k] == rest[k]);
                }
            }
        } else if !is_ws(s.last()) {
            let t = tokens(s);
            assert forall|k: int| 0 <= k < t.len() implies (#[trigger] t[k]).len() > 0 by {
                if k < rest.len() {
                    assert(t[k] == rest[k]);
                }
            }
        }
    }
}

proof fn lemma_pieces_len(s: Seq<u8>, sep: u8)
    ensures
        pieces(s, sep).len() > 0,
        pieces(s, sep).len() <= s.len() + 1,
    decreases s.len(),
{
    if s.len() > 0 {
        lemma_pieces_len(s.drop_last(), sep);
    }
}

/// Splits `s` into its whitespace-separated tokens.
pub fn split_tokens(s: &[u8]) -> (r: Vec<Vec<u8>>)
    ensures
        r@.len() == tokens(s@).len(),
        forall|k: int| 0 <= k < r@.len() ==> (#[trigger] r@[k])@ == tokens(s@)[k],
{
    let mut r: Vec<Vec<u8>> = Vec::new();
    let mut i: usize = 0;
    while i < s.len()
        invariant
            i <= s@.len(),
            r@.len() == tokens(s@.subrange(0, i as int)).len(),
            forall|k: int| 0 <= k < r@.len() ==> (#[trigger] r@[k])@ == tokens(s@.subrange(0, i as int))[k],
        decreases s@.len() - i,
    {
        let b = s[i];
        let ghost pre = s@.subrange(0, i as int);
        let ghost cur = s@.subrange(0, i + 1);
        proof {
            assert(cur.drop_last() =~= pre);
            assert(cur.last() == b);
            if i >= 1 {
                assert(cur[cur.len() - 2] == s@[i - 1]);
                assert(pre.last() == s@[i - 1]);
                lemma_tokens_shape(pre);
            }
        }
        let ws = b == 0x20 || b == 0x09 || b == 0x0a || b == 0x0b || b == 0x0c || b == 0x0d;
        if ws {
        } else if i >= 1 && !(s[i - 1] == 0x20 || s[i - 1] == 0x09 || s[i - 1] == 0x0a || s[i - 1] == 0x0b || s[i - 1] == 0x0c || s[i - 1] == 0x0d) {
            let last = r.len() - 1;
            let ghost before = r@;
            r[last].push(b);
            proof {
                assert forall|k: int| 0 <= k < r@.len() implies (#[trigger] r@[k])@ == tokens(cur)[k] by {
                    if k != last {
                        assert(r@[k] == before[k]);
                    }
                }
            }
        } else {
            let mut t: Vec<u8> = Vec::new();
            t.push(b);
            let ghost before = r@;
            r.push(t);
            proof {
                assert(t@ =~= seq![b]);
                assert forall|k: int| 0 <= k < r@.len() implies (#[trigger] r@[k])@ == tokens(cur)[k] by {
                    if k < before.len() {
                        assert(r@[k] == before[k]);
                    }
                }
            }
        }
        i += 1;
    }
    proof {
        assert(s@.subrange(0, s@.len() as int) =~= s@);
    }
    r
}

/// Splits `s` at each byte equal to `sep`.
pub fn split_pieces(s: &[u8], sep: u8) -> (r: Vec<Vec<u8>>)
    ensures
        r@.len() == pieces(s@, sep).len(),
        forall|k: int| 0 <= k < r@.len() ==> (#[trigger] r@[k])@ == pieces(s@, sep)[k],
{
    let mut r: Vec<Vec<u8>> = Vec::new();
    r.push(Vec::new());
    let mut i: usize = 0;
    proof {
        assert(s@.subrange(0, 0) =~= Seq::<u8>::empty());
        assert(r@[0]@ =~= Seq::<u8>::empty());
    }
    while i < s.len()
        invariant
            i <= s@.len(),
            r@.len() == pieces(s@.subrange(0, i as int), sep).len(),
            forall|k: int| 0 <= k < r@.len() ==> (#[trigger] r@[k])@ == pieces(s@.subrange(0, i as int), sep)[k],
        decreases s@.len() - i,
    {
        let b = s[i];
        let ghost pre = s@.subrange(0, i as int);
        let ghost cur = s@.subrange(0, i + 1);
        proof {
            assert(cur.drop_last() =~= pre);
            assert(cur.last() == b);
            lemma_pieces_len(pre, sep);
        }
        let ghost before = r@;
        if b == sep {
            r.push(Vec::new());
            proof {
                assert(r@[r@.len() - 1]@ =~= Seq::<u8>::empty());
                assert forall|k: int| 0 <= k < r@.len() implies (#[trigger] r@[k])@ == pieces(cur, sep)[k] by {
                    if k < before.len() {
                        assert(r@[k] == before[k]);
                    }
                }
            }
        } else {
            let last = r.len() - 1;
            r[last].push(b);
            proof {
                assert forall|k: int| 0 <= k < r@.len() implies (#[trigger] r@[k])@ == pieces(cur, sep)[k] by {
                    if k != last {
                        assert(r@[k] == before[k]);
                    }
                }
            }
        }
        i += 1;
    }
    proof {
        assert(s@.subrange(0, s@.len() as int) =~= s@);
    }
    r
}

/// Whether `b` is an ASCII decimal digit.
pub open spec fn is_digit(b: u8) -> bool {
    0x30 <= b <= 0x39
}

/// The value of a run of decimal digits.
pub open spec fn digits_value(s: Seq<u8>) -> nat
    decreases s.len(),
{
    if s.len() == 0 {
        0
    } else {
        digits_value(s.drop_last()) * 10 + (s.last() - 0x30) as nat
    }
}

/// The digits of a number text: all of it, or what follows a leading `+`.
pub open spec fn unsigned_digits(s: Seq<u8>) -> Seq<u8> {
    if s.len() > 0 && s[0] == 0x2b {
        s.subrange(1, s.len() as int)
    } else {
        s
    }
}

/// The `usize` that `s` writes in decimal, with an optional leading `+`; `None` when `s`
/// is no such text or the value does not fit.
pub open spec fn usize_of(s: Seq<u8>) -> Option<usize> {
    let d = unsigned_digits(s);
    if d.len() > 0 && (forall|i: int| 0 <= i < d.len() ==> is_digit(#[trigger] d[i]))
        && digits_value(d) <= usize::MAX {
        Some(digits_value(d) as usize)
    } else {
        None
    }
}

proof fn lemma_digits_value_grows(s: Seq<u8>, i: int, j: int)
    requires
        0 <= i <= j <= s.len(),
        forall|k: int| 0 <= k < s.len() ==> is_digit(#[trigger] s[k]),
    ensures
        digits_value(s.subrange(0, i)) <= digits_value(s.subrange(0, j)),
    decreases j - i,
{
    if i < j {
        lemma_digits_value_grows(s, i, j - 1);
        assert(s.subrange(0, j).drop_last() =~= s.subrange(0, j - 1));
    }
}

/// Reads a decimal `usize`, as `str::parse::<usize>` does.
pub fn parse_usize(s: &[u8]) -> (r: Option<usize>)
    ensures
        r == usize_of(s@),
{
    let start: usize = if s.len() > 0 && s[0] == 0x2b { 1 } else { 0 };
    let ghost d = unsigned_digits(s@);
    proof {
        assert(d =~= s@.subrange(start as int, s@.len() as int));
    }
    if start >= s.len() {
        return None;
    }
    let mut v: usize = 0;
    let mut i: usize = start;
    while i < s.len()
        invariant
            start <= i <= s@.len(),
            d =~= s@.subrange(start as int, s@.len() as int),
            d == unsigned_digits(s@),
            forall|k: int| 0 <= k < i - start ==> is_digit(#[trigger] d[k]),
            v as nat == digits_value(d.subrange(0, i - start)),
        decreases s@.len() - i,
    {
        let b = s[i];
        assert(d[i - start] == b);
        if b < 0x30 || b > 0x39 {
            assert(!is_digit(d[i - start]));
            return None;
        }
        let digit = (b - 0x30) as usize;
        proof {
            let cur = d.subrange(0, i - start + 1);
            assert(cur.drop_last() =~= d.subrange(0, i - start));
            assert(cur.last() == b);
            assert(digits_value(cur) == v * 10 + digit);
        }
        if v > (usize::MAX - digit) / 10 {
            proof {
                assert(v * 10 + digit > usize::MAX) by (nonlinear_arith)
                    requires
                        v > (usize::MAX - digit) / 10,
                        digit <= 9,
                ;
                if forall|q: int| 0 <= q < d.len() ==> is_digit(#[trigger] d[q]) {
                    lemma_digits_value_grows(d, i - start + 1, d.len() as int);
                    assert(d.subrange(0, d.len() as int) =~= d);
                }
            }
            return None;
        }
        proof {
            assert(v * 10 + digit <= usize::MAX) by (nonlinear_arith)
                requires
                    v <= (usize::MAX - digit) / 10,
                    digit <= 9,
            ;
        }
        v = v * 10 + digit;
        i += 1;
    }
    proof {
        assert(d.subrange(0, d.len() as int) =~= d);
    }
    Some(v)
}

/// The values of the pieces that read as a `usize`, in order.
pub open spec fn kept_values(ps: Seq<Seq<u8>>) -> Seq<usize>
    decreases ps.len(),
{
    if ps.len() == 0 {
        seq![]
    } else {
        let rest = kept_values(ps.drop_last());
        match usize_of(ps.last()) {
            Some(v) => rest.push(v),
            None => rest,
        }
    }
}

/// The corner that a face token `a/b/c` (or `a//c`, `a/c`) names: two readable indices
/// are a position and a normal, three are position, texture coordinate and normal.
pub open spec fn corner_of(tok: Seq<u8>) -> Option<Corner> {
    let k = kept_values(pieces(tok, 0x2f));
    if k.len() == 2 {
        Some((k[0], 0, k[1]))
    } else if k.len() == 3 {
        Some((k[0], k[1], k[2]))
    } else {
        None
    }
}

/// Reads a face corner token.
pub fn parse_corner(tok: &[u8]) -> (r: Option<Corner>)
    ensures
        r == corner_of(tok@),
{
    let ps = split_pieces(tok, 0x2f);
    let ghost sp = pieces(tok@, 0x2f);
    let mut k: Vec<usize> = Vec::new();
    let mut i: usize = 0;
    while i < ps.len()
        invariant
            i <= ps@.len(),
            sp == pieces(tok@, 0x2f),
            ps@.len() == sp.len(),
            forall|j: int| 0 <= j < ps@.len() ==> (#[trigger] ps@[j])@ == sp[j],
            k@ == kept_values(sp.subrange(0, i as int)),
        decreases ps@.len() - i,
    {
        proof {
            assert(sp.subrange(0, i + 1).drop_last() =~= sp.subrange(0, i as int));
            assert(sp.subrange(0, i + 1).last() == ps@[i as int]@);
        }
        match parse_usize(ps[i].as_slice()) {
            Some(v) => k.push(v),
            None => {},
        }
        i += 1;
    }
    proof {
        assert(sp.subrange(0, sp.len() as int) =~= sp);
    }
    if k.len() == 2 {
        Some((k[0], 0, k[1]))
    } else if k.len() == 3 {
        Some((k[0], k[1], k[2]))
    } else {
        None
    }
}

/// A line of a mesh file. Number texts are handed on as they stand.
#[derive(Debug, PartialEq)]
pub enum ObjLine {
    /// `v x y z`
    Position(Vec<u8>, Vec<u8>, Vec<u8>),
    /// `vt u v`
    TexCoord(Vec<u8>, Vec<u8>),
    /// `vn x y z`
    Normal(Vec<u8>, Vec<u8>, Vec<u8>),
    /// `f a b c`
    Face(Corner, Corner, Corner),
    /// Anything else, ignored.
    Other,
}

/// Why a line of a mesh file was rejected.
#[derive(Clone, Copy, Debug, PartialEq, Eq)]
pub enum ObjError {
    /// Fewer fields than the keyword needs.
    MissingField,
    /// More fields than the keyword takes; for a face, more than three corners.
    ExtraField,
    /// A face corner that is not `a/b/c`, `a//c` or `a/c`.
    BadCorner,
}

/// The face that the tokens `t` of an `f` line give.
pub open spec fn face_of(t: Seq<Seq<u8>>) -> Result<(Corner, Corner, Corner), ObjError> {
    if t.len() < 2 {
        Err(ObjError::MissingField)
    } else if corner_of(t[1]) is None {
        Err(ObjError::BadCorner)
    } else if t.len() < 3 {
        Err(ObjError::MissingField)
    } else if corner_of(t[2]) is None {
        Err(ObjError::BadCorner)
    } else if t.len() < 4 {
        Err(ObjError::MissingField)
    } else if corner_of(t[3]) is None {
        Err(ObjError::BadCorner)
    } else if t.len() > 4 {
        Err(ObjError::ExtraField)
    } else {
        Ok((corner_of(t[1]).unwrap(), corner_of(t[2]).unwrap(), corner_of(t[3]).unwrap()))
    }
}

/// The error, if any, of a line with keyword and `t.len() - 1` fields where `n` are taken.
pub open spec fn arity_error(t: Seq<Seq<u8>>, n: int) -> Option<ObjError> {
    if t.len() < n + 1 {
        Some(ObjError::MissingField)
    } else if t.len() > n + 1 {
        Some(ObjError::ExtraField)
    } else {
        None
    }
}

fn is_word(t: &Vec<u8>, a: u8, b: u8, two: bool) -> (r: bool)
    ensures
        r == if two {
            t@ == seq![a, b]
        } else {
            t@ == seq![a]
        },
{
    if two {
        let r = t.len() == 2 && t[0] == a && t[1] == b;
        proof {
            if t@.len() == 2 && t@[0] == a && t@[1] == b {
                assert(t@ =~= seq![a, b]);
            }
        }
        r
    } else {
        let r = t.len() == 1 && t[0] == a;
        proof {
            if t@.len() == 1 && t@[0] == a {
                assert(t@ =~= seq![a]);
            }
        }
        r
    }
}

fn clone_bytes(v: &Vec<u8>) -> (r: Vec<u8>)
    ensures
        r@ == v@,
{
    let mut r: Vec<u8> = Vec::with_capacity(v.len());
    let mut i: usize = 0;
    while i < v.len()
        invariant
            i <= v@.len(),
            r@ =~= v@.subrange(0, i as int),
        decreases v@.len() - i,
    {
        r.push(v[i]);
        i += 1;
    }
    proof {
        assert(v@.subrange(0, v@.len() as int) =~= v@);
    }
    r
}

/// Reads one line of a mesh file.
pub fn parse_line(line: &[u8]) -> (r: Result<ObjLine, ObjError>)
    ensures
        ({
            let t = tokens(line@);
            if t.len() > 0 && t[0] == seq![0x76u8] {
                match arity_error(t, 3) {
                    Some(e) => r == Err::<ObjLine, ObjError>(e),
                    None => r matches Ok(ObjLine::Position(x, y, z)) && x@ == t[1] && y@ == t[2] && z@ == t[3],
                }
            } else if t.len() > 0 && t[0] == seq![0x76u8, 0x74u8] {
                match arity_error(t, 2) {
                    Some(e) => r == Err::<ObjLine, ObjError>(e),
                    None => r matches Ok(ObjLine::TexCoord(u, v)) && u@ == t[1] && v@ == t[2],
                }
            } else if t.len() > 0 && t[0] == seq![0x76u8, 0x6eu8] {
                match arity_error(t, 3) {
                    Some(e) => r == Err::<ObjLine, ObjError>(e),
                    None => r matches Ok(ObjLine::Normal(x, y, z)) && x@ == t[1] && y@ == t[2] && z@ == t[3],
                }
            } else if t.len() > 0 && t[0] == seq![0x66u8] {
                match face_of(t) {
                    Ok(f) => r == Ok::<ObjLine, ObjError>(ObjLine::Face(f.0, f.1, f.2)),
                    Err(e) => r == Err::<ObjLine, ObjError>(e),
                }
            } else {
                r == Ok::<ObjLine, ObjError>(ObjLine::Other)
            }
        }),
{
    let t = split_tokens(line);
    let ghost ts = tokens(line@);
    if t.len() == 0 {
        return Ok(ObjLine::Other);
    }
    let n = t.len();
    if is_word(&t[0], 0x76, 0, false) || is_word(&t[0], 0x76, 0x6e, true) {
        let normal = !is_word(&t[0], 0x76, 0, false);
        if n < 4 {
            return Err(ObjError::MissingField);
        }
        if n > 4 {
            return Err(ObjError::ExtraField);
        }
        let x = clone_bytes(&t[1]);
        let y = clone_bytes(&t[2]);
        let z = clone_bytes(&t[3]);
        if normal {
            Ok(ObjLine::Normal(x, y, z))
        } else {
            Ok(ObjLine::Position(x, y, z))
        }
    } else if is_word(&t[0], 0x76, 0x74, true) {
        if n < 3 {
            return Err(ObjError::MissingField);
        }
        if n > 3 {
            return Err(ObjError::ExtraField);
        }
        Ok(ObjLine::TexCoord(clone_bytes(&t[1]), clone_bytes(&t[2])))
    } else if is_word(&t[0], 0x66, 0, false) {
        if n < 2 {
            return Err(ObjError::MissingField);
        }
        let a = match parse_corner(t[1].as_slice()) {
            Some(c) => c,
            None => {
                return Err(ObjError::BadCorner);
            },
        };
        if n < 3 {
            return Err(ObjError::MissingField);
        }
        let b = match parse_corner(t[2].as_slice()) {
            Some(c) => c,
            None => {
                return Err(ObjError::BadCorner);
            },
        };
        if n < 4 {
            return Err(ObjError::MissingField);
        }
        let c = match parse_corner(t[3].as_slice()) {
            Some(c) => c,
            None => {
                return Err(ObjError::BadCorner);
            },
        };
        if n > 4 {
            return Err(ObjError::ExtraField);
        }
        Ok(ObjLine::Face(a, b, c))
    } else {
        proof {
            assert(t@[0]@ == ts[0]);
        }
        Ok(ObjLine::Other)
    }
}

} // verus!
