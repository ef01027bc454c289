//! Byte framing of accumulated values: each value is stored as a 4-byte
//! little-endian length followed by its bytes.
use vstd::prelude::*;

verus! {

/// The four little-endian bytes of `n`.
pub open spec fn le32(n: u32) -> Seq<u8> {
    seq![n as u8, (n >> 8u32) as u8, (n >> 16u32) as u8, (n >> 24u32) as u8]
}

/// The number whose little-endian bytes are `a, b, c, d`.
pub open spec fn le32_value(a: u8, b: u8, c: u8, d: u8) -> u32 {
    (a as u32) | ((b as u32) << 8u32) | ((c as u32) << 16u32) | ((d as u32) << 24u32)
}

/// The framed form of one value.
pub open spec fn frame(x: Seq<u8>) -> Seq<u8> {
    le32(x.len() as u32) + x
}

/// The values held by a framed byte buffer, or `None` when it is not a sequence of frames.
pub open spec fn parse_frames(b: Seq<u8>) -> Option<Seq<Seq<u8>>>
    decreases b.len(),
{
    if b.len() == 0 {
        Some(Seq::empty())
    } else if b.len() < 4 {
        None
    } else {
        let n = le32_value(b[0], b[1], b[2], b[3]) as int;
        if b.len() < 4 + n {
            None
        } else {
            match parse_frames(b.subrange(4 + n, b.len() as int)) {
                Some(rest) => Some(seq![b.subrange(4, 4 + n)] + rest),
                None => None,
            }
        }
    }
}

/// The views of a sequence of byte vectors.
pub open spec fn views(v: Seq<Vec<u8>>) -> Seq<Seq<u8>> {
    v.map_values(|x: Vec<u8>| x@)
}

/// `p` followed by what `o` holds, if it holds anything.
pub open spec fn prepend(p: Seq<Seq<u8>>, o: Option<Seq<Seq<u8>>>) -> Option<Seq<Seq<u8>>> {
    match o {
        Some(r) => Some(p + r),
        None => None,
    }
}

pub proof fn lemma_le32_round_trip(n: u32)
    ensures
        le32_value(le32(n)[0], le32(n)[1], le32(n)[2], le32(n)[3]) == n,
{
    assert(((n as u8) as u32) | ((((n >> 8u32) as u8) as u32) << 8u32) | ((((n >> 16u32) as u8)
        as u32) << 16u32) | ((((n >> 24u32) as u8) as u32) << 24u32) == n) by (bit_vector);
}

/// A single frame holds exactly its value.
pub proof fn lemma_parse_frame(x: Seq<u8>)
    requires
        x.len() <= u32::MAX,
    ensures
        parse_frames(frame(x)) == Some(seq![x]),
{
    let f = frame(x);
    let n = x.len() as u32;
    lemma_le32_round_trip(n);
    assert(f[0] == le32(n)[0] && f[1] == le32(n)[1] && f[2] == le32(n)[2] && f[3] == le32(n)[3]);
    assert(le32_value(f[0], f[1], f[2], f[3]) == n);
    assert(parse_frames(Seq::<u8>::empty()) == Some(Seq::<Seq<u8>>::empty()));
    assert(f.subrange(4, 4 + x.len() as int) =~= x);
    assert(f.subrange(4 + x.len() as int, f.len() as int) =~= Seq::<u8>::empty());
    assert(seq![x] + Seq::<Seq<u8>>::empty() =~= seq![x]);
}

/// Framed buffers concatenate to the concatenation of their values.
pub proof fn lemma_parse_concat(a: Seq<u8>, b: Seq<u8>)
    requires
        parse_frames(a) is Some,
        parse_frames(b) is Some,
    ensures
        parse_frames(a + b) == Some(parse_frames(a).unwrap() + parse_frames(b).unwrap()),
    decreases a.len(),
{
    if a.len() == 0 {
        assert(a + b =~= b);
        assert(parse_frames(a).unwrap() + parse_frames(b).unwrap() =~= parse_frames(b).unwrap());
    } else {
        let ab = a + b;
        let n = le32_value(a[0], a[1], a[2], a[3]) as int;
        assert(ab[0] == a[0] && ab[1] == a[1] && ab[2] == a[2] && ab[3] == a[3]);
        let ra = a.subrange(4 + n, a.len() as int);
        lemma_parse_concat(ra, b);
        assert(ab.subrange(4 + n, ab.len() as int) =~= ra + b);
        assert(ab.subrange(4, 4 + n) =~= a.subrange(4, 4 + n));
        let pa = parse_frames(ra).unwrap();
        let pb = parse_frames(b).unwrap();
        assert(seq![a.subrange(4, 4 + n)] + (pa + pb) =~= (seq![a.subrange(4, 4 + n)] + pa) + pb);
    }
}

/// Appends the frame of `x` to `out`.
pub fn push_frame(out: &mut Vec<u8>, x: &Vec<u8>)
    requires
        x.len() <= u32::MAX,
    ensures
        final(out)@ == old(out)@ + frame(x@),
{
    let n: u32 = x.len() as u32;
    out.push(n as u8);
    out.push((n >> 8u32) as u8);
    out.push((n >> 16u32) as u8);
    out.push((n >> 24u32) as u8);
    let ghost base = out@;
    let mut i: usize = 0;
    while i < x.len()
        invariant
            i <= x.len(),
            out@ == base + x@.subrange(0, i as int),
        decreases x.len() - i,
    {
        out.push(x[i]);
        assert(x@.subrange(0, i + 1) =~= x@.subrange(0, i as int).push(x@[i as int]));
        i += 1;
    }
    assert(x@.subrange(0, x.len() as int) =~= x@);
    assert(base =~= old(out)@ + le32(n));
    assert(old(out)@ + le32(n) + x@ =~= old(out)@ + frame(x@));
}

/// The bytes of `b` from `start` to `end`, copied.
pub fn copy_range(b: &Vec<u8>, start: usize, end: usize) -> (r: Vec<u8>)
    requires
        start <= end <= b.len(),
    ensures
        r@ == b@.subrange(start as int, end as int),
{
    let mut r: Vec<u8> = Vec::new();
    let mut i: usize = start;
    while i < end
        invariant
            start <= i <= end <= b.len(),
            r@ == b@.subrange(start as int, i as int),
        decreases end - i,
    {
        r.push(b[i]);
        assert(b@.subrange(start as int, i + 1) =~= b@.subrange(start as int, i as int).push(
            b@[i as int],
        ));
        i += 1;
    }
    r
}

/// Reads the little-endian length at `pos`.
pub fn read_le32(b: &Vec<u8>, pos: usize) -> (r: u32)
    requires
        pos + 4 <= b.len(),
    ensures
        r == le32_value(b@[pos as int], b@[pos + 1], b@[pos + 2], b@[pos + 3]),
{
    (b[pos] as u32) | ((b[pos + 1] as u32) << 8u32) | ((b[pos + 2] as u32) << 16u32) | ((b[pos
        + 3] as u32) << 24u32)
}

/// Splits a framed buffer into its values; `None` when it is malformed.
pub fn decode_frames(b: &Vec<u8>) -> (r: Option<Vec<Vec<u8>>>)
    ensures
        match r {
            Some(v) => parse_frames(b@) == Some(views(v@)),
            None => parse_frames(b@) is None,
        },
{
    let mut out: Vec<Vec<u8>> = Vec::new();
    let mut pos: usize = 0;
    assert(b@.subrange(0, b.len() as int) =~= b@);
    assert(views(out@) + Seq::<Seq<u8>>::empty() =~= Seq::<Seq<u8>>::empty());
    while pos < b.len()
        invariant
            pos <= b.len(),
            parse_frames(b@) == prepend(views(out@), parse_frames(b@.subrange(pos as int, b.len() as int))),
        decreases b.len() - pos,
    {
        let ghost s = b@.subrange(pos as int, b.len() as int);
        if b.len() - pos < 4 {
            return None;
        }
        let n: u32 = read_le32(b, pos);
        if ((b.len() - pos - 4) as u64) < n as u64 {
            return None;
        }
        let end: usize = pos + 4 + n as usize;
        let item = copy_range(b, pos + 4, end);
        proof {
            assert(s[0] == b@[pos as int] && s[1] == b@[pos + 1] && s[2] == b@[pos + 2] && s[3] == b@[pos + 3]);
            assert(s.subrange(4 + n, s.len() as int) =~= b@.subrange(end as int, b.len() as int));
            assert(s.subrange(4, 4 + n) =~= item@);
            let o = parse_frames(b@.subrange(end as int, b.len() as int));
            assert(views(out@.push(item)) =~= views(out@).push(item@));
            match o {
                Some(rest) => {
                    assert(views(out@) + (seq![item@] + rest) =~= views(out@).push(item@) + rest);
                },
                None => {},
            }
        }
        out.push(item);
        pos = end;
    }
    proof {
        assert(b@.subrange(pos as int, b.len() as int) =~= Seq::<u8>::empty());
        assert(views(out@) + Seq::<Seq<u8>>::empty() =~= views(out@));
    }
    Some(out)
}

} // verus!

verus! {

/// A framed buffer holds at most a quarter as many values as bytes.
pub proof fn lemma_items_bound(b: Seq<u8>)
    requires
        parse_frames(b) is Some,
    ensures
        4 * parse_frames(b).unwrap().len() <= b.len(),
    decreases b.len(),
{
    if b.len() > 0 {
        let n = le32_value(b[0], b[1], b[2], b[3]) as int;
        lemma_items_bound(b.subrange(4 + n, b.len() as int));
    }
}

} // verus!
