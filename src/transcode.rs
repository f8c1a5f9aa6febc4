use vstd::prelude::*;

verus! {

/// The collector byte of a chunk: bit `i` is the top bit of byte `i`.
pub open spec fn msb_collect(c: Seq<u8>) -> u8
    decreases c.len(),
{
    if c.len() == 0 {
        0u8
    } else {
        msb_collect(c.drop_last()) | ((c.last() >> 7u8) << ((c.len() - 1) as u8))
    }
}

/// One wire group: the low seven bits of each byte, then the collector byte.
pub open spec fn pack_group(c: Seq<u8>) -> Seq<u8> {
    Seq::new(c.len(), |i: int| c[i] & 0x7fu8).push(msb_collect(c))
}

/// The wire form of an 8-bit payload, seven bytes per group; a short last
/// chunk gives a short last group.
pub open spec fn pack(p: Seq<u8>) -> Seq<u8>
    decreases p.len(),
{
    if p.len() == 0 {
        Seq::empty()
    } else if p.len() <= 7 {
        pack_group(p)
    } else {
        pack_group(p.take(7)) + pack(p.skip(7))
    }
}

/// Data byte `d` of a wire group with its top bit taken from bit `i` of `msb`.
pub open spec fn restore(d: u8, msb: u8, i: u8) -> u8 {
    (d & 0x7fu8) | (((msb >> i) & 1u8) << 7u8)
}

/// The bytes that a wire group (data bytes, then collector byte) stands for.
pub open spec fn unpack_group(g: Seq<u8>) -> Seq<u8> {
    Seq::new((g.len() - 1) as nat, |i: int| restore(g[i], g.last(), i as u8))
}

/// The 8-bit payload that a wire payload stands for, eight bytes per group;
/// a short last group gives as many bytes as it has data bytes.
pub open spec fn unpack(w: Seq<u8>) -> Seq<u8>
    decreases w.len(),
{
    if w.len() == 0 {
        Seq::empty()
    } else if w.len() <= 8 {
        unpack_group(w)
    } else {
        unpack_group(w.take(8)) + unpack(w.skip(8))
    }
}

/// Every byte that goes on the wire has its top bit clear.
pub open spec fn seven_bit_clean(w: Seq<u8>) -> bool {
    forall|i: int| 0 <= i < w.len() ==> w[i] < 0x80
}

proof fn bv_bound_step(m: u8, b: u8, k: u8)
    requires
        m >> k == 0,
        k < 7,
    ensures
        (m | ((b >> 7u8) << k)) >> ((k + 1) as u8) == 0,
{
    assert((m | ((b >> 7u8) << k)) >> ((k + 1) as u8) == 0) by (bit_vector)
        requires
            m >> k == 0,
            k < 7,
    ;
}

proof fn bv_lower_bit(m: u8, b: u8, k: u8, i: u8)
    requires
        i < k,
        k < 7,
    ensures
        ((m | ((b >> 7u8) << k)) >> i) & 1u8 == (m >> i) & 1u8,
{
    assert(((m | ((b >> 7u8) << k)) >> i) & 1u8 == (m >> i) & 1u8) by (bit_vector)
        requires
            i < k,
            k < 7,
    ;
}

proof fn bv_new_bit(m: u8, b: u8, k: u8)
    requires
        m >> k == 0,
        k < 7,
    ensures
        ((m | ((b >> 7u8) << k)) >> k) & 1u8 == b >> 7u8,
{
    assert(((m | ((b >> 7u8) << k)) >> k) & 1u8 == b >> 7u8) by (bit_vector)
        requires
            m >> k == 0,
            k < 7,
    ;
}

proof fn bv_restore(x: u8, y: u8)
    requires
        y == x >> 7u8,
    ensures
        ((x & 0x7fu8) & 0x7fu8) | (y << 7u8) == x,
        x & 0x7fu8 < 0x80,
{
    assert(((x & 0x7fu8) & 0x7fu8) | (y << 7u8) == x) by (bit_vector)
        requires
            y == x >> 7u8,
    ;
    assert(x & 0x7fu8 < 0x80) by (bit_vector);
}

proof fn lemma_msb_bound(c: Seq<u8>)
    requires
        c.len() <= 7,
    ensures
        msb_collect(c) >> (c.len() as u8) == 0,
    decreases c.len(),
{
    if c.len() == 0 {
        assert(0u8 >> 0u8 == 0) by (bit_vector);
    } else {
        lemma_msb_bound(c.drop_last());
        bv_bound_step(msb_collect(c.drop_last()), c.last(), (c.len() - 1) as u8);
    }
}

proof fn lemma_msb_bit(c: Seq<u8>, i: int)
    requires
        c.len() <= 7,
        0 <= i < c.len(),
    ensures
        (msb_collect(c) >> (i as u8)) & 1u8 == c[i] >> 7u8,
    decreases c.len(),
{
    let k = (c.len() - 1) as u8;
    let m = msb_collect(c.drop_last());
    if i == c.len() - 1 {
        lemma_msb_bound(c.drop_last());
        bv_new_bit(m, c.last(), k);
    } else {
        lemma_msb_bit(c.drop_last(), i);
        bv_lower_bit(m, c.last(), k, i as u8);
    }
}

/// A group holding one to seven bytes comes back unchanged.
pub proof fn lemma_group_round_trip(c: Seq<u8>)
    requires
        1 <= c.len() <= 7,
    ensures
        unpack_group(pack_group(c)) == c,
        seven_bit_clean(pack_group(c)),
{
    let g = pack_group(c);
    assert forall|i: int| 0 <= i < c.len() implies #[trigger] unpack_group(g)[i] == c[i] && g[i]
        < 0x80 by {
        lemma_msb_bit(c, i);
        bv_restore(c[i], c[i] >> 7u8);
    }
    lemma_msb_bound(c);
    let m = msb_collect(c);
    let n = c.len() as u8;
    assert(m < 0x80) by (bit_vector)
        requires
            m >> n == 0,
            n <= 7,
    ;
    assert(unpack_group(g) =~= c);
}

/// Unpacking the wire form of any payload gives the payload back, and the
/// wire form has no byte with its top bit set.
pub proof fn lemma_round_trip(p: Seq<u8>)
    ensures
        unpack(pack(p)) == p,
        seven_bit_clean(pack(p)),
    decreases p.len(),
{
    if p.len() == 0 {
        assert(unpack(pack(p)) =~= p);
    } else if p.len() <= 7 {
        lemma_group_round_trip(p);
    } else {
        let g = pack_group(p.take(7));
        let rest = pack(p.skip(7));
        lemma_group_round_trip(p.take(7));
        lemma_round_trip(p.skip(7));
        let w = g + rest;
        assert(rest.len() > 0) by {
            if rest.len() == 0 {
                assert(unpack(rest) =~= Seq::<u8>::empty());
            }
        }
        assert(w.take(8) =~= g);
        assert(w.skip(8) =~= rest);
        assert(p =~= p.take(7) + p.skip(7));
        assert forall|i: int| 0 <= i < w.len() implies w[i] < 0x80 by {
            if i >= 8 {
                assert(w[i] == rest[i - 8]);
            }
        }
    }
}

/// The wire form of a payload whose length is not a multiple of seven ends
/// in a short group: the last chunk's data bytes and its collector byte, and
/// unpacking reads exactly that group and gives the payload back.
pub proof fn lemma_short_tail(p: Seq<u8>)
    requires
        p.len() % 7 != 0,
    ensures
        pack(p).len() == 8 * (p.len() / 7) + p.len() % 7 + 1,
        pack(p).skip(8 * (p.len() / 7) as int) == pack_group(p.skip(7 * (p.len() / 7) as int)),
        unpack(pack(p)) == p,
    decreases p.len(),
{
    lemma_round_trip(p);
    if p.len() <= 7 {
        assert(p.skip(0) =~= p);
        assert(pack(p).skip(0) =~= pack(p));
    } else {
        lemma_short_tail(p.skip(7));
        let g = pack_group(p.take(7));
        let rest = pack(p.skip(7));
        let q = p.skip(7);
        assert(q.len() / 7 == p.len() / 7 - 1);
        assert(q.len() % 7 == p.len() % 7);
        assert(q.skip(7 * (q.len() / 7) as int) =~= p.skip(7 * (p.len() / 7) as int));
        assert((g + rest).skip(8 * (p.len() / 7) as int) =~= rest.skip(8 * (q.len() / 7) as int));
    }
}

/// A wire payload in the form that packing produces: no byte with its top
/// bit set, no group made of a collector byte alone, and no collector bit at
/// or above the data count of a short last group.
pub open spec fn canonical(w: Seq<u8>) -> bool {
    &&& seven_bit_clean(w)
    &&& w.len() % 8 != 1
    &&& w.len() % 8 != 0 ==> w.last() >> ((w.len() % 8 - 1) as u8) == 0
}

proof fn bv_restored(d: u8, msb: u8, i: u8)
    requires
        d < 0x80,
        i < 7,
    ensures
        ((d & 0x7fu8) | (((msb >> i) & 1u8) << 7u8)) & 0x7fu8 == d,
        ((d & 0x7fu8) | (((msb >> i) & 1u8) << 7u8)) >> 7u8 == (msb >> i) & 1u8,
{
    assert(((d & 0x7fu8) | (((msb >> i) & 1u8) << 7u8)) & 0x7fu8 == d) by (bit_vector)
        requires
            d < 0x80,
    ;
    assert(((d & 0x7fu8) | (((msb >> i) & 1u8) << 7u8)) >> 7u8 == (msb >> i) & 1u8)
        by (bit_vector);
}

proof fn bv_top_clear(x: u8)
    requires
        x < 0x80,
    ensures
        x >> 7u8 == 0,
{
    assert(x >> 7u8 == 0) by (bit_vector)
        requires
            x < 0x80,
    ;
}

proof fn bv_mask_step(msb: u8, k: u8)
    requires
        k < 7,
    ensures
        (msb & !(0xffu8 << k)) | (((msb >> k) & 1u8) << k) == msb & !(0xffu8 << ((k + 1) as u8)),
{
    assert((msb & !(0xffu8 << k)) | (((msb >> k) & 1u8) << k) == msb & !(0xffu8 << ((k
        + 1) as u8))) by (bit_vector)
        requires
            k < 7,
    ;
}

proof fn lemma_restored_msb(g: Seq<u8>, k: int)
    requires
        2 <= g.len() <= 8,
        seven_bit_clean(g),
        0 <= k <= g.len() - 1,
    ensures
        msb_collect(unpack_group(g).take(k)) == g.last() & !(0xffu8 << (k as u8)),
    decreases k,
{
    let c = unpack_group(g);
    let msb = g.last();
    if k == 0 {
        assert(c.take(0) =~= Seq::<u8>::empty());
        assert(msb & !(0xffu8 << 0u8) == 0) by (bit_vector);
    } else {
        lemma_restored_msb(g, k - 1);
        assert(c.take(k).drop_last() =~= c.take(k - 1));
        bv_restored(g[k - 1], msb, (k - 1) as u8);
        bv_mask_step(msb, (k - 1) as u8);
    }
}

/// A canonical group of one to seven data bytes and its collector byte packs
/// back from what it unpacks to.
proof fn lemma_group_canonical(g: Seq<u8>)
    requires
        2 <= g.len() <= 8,
        seven_bit_clean(g),
        g.last() >> ((g.len() - 1) as u8) == 0,
    ensures
        pack_group(unpack_group(g)) == g,
{
    let c = unpack_group(g);
    let msb = g.last();
    let n = (g.len() - 1) as u8;
    lemma_restored_msb(g, g.len() - 1);
    assert(c.take(g.len() - 1) =~= c);
    assert(msb & !(0xffu8 << n) == msb) by (bit_vector)
        requires
            msb >> n == 0,
            n <= 7,
    ;
    assert forall|i: int| 0 <= i < c.len() implies #[trigger] pack_group(c)[i] == g[i] by {
        bv_restored(g[i], msb, i as u8);
    }
    assert(pack_group(c) =~= g);
}

/// Packing what a canonical wire payload unpacks to gives that wire payload
/// back.
pub proof fn lemma_canonical_round_trip(w: Seq<u8>)
    requires
        canonical(w),
    ensures
        pack(unpack(w)) == w,
    decreases w.len(),
{
    if w.len() == 0 {
        assert(pack(unpack(w)) =~= w);
    } else if w.len() <= 8 {
        if w.len() == 8 {
            bv_top_clear(w.last());
        }
        lemma_group_canonical(w);
    } else {
        let g = w.take(8);
        let v = w.skip(8);
        assert(v.len() % 8 == w.len() % 8);
        assert(v.len() > 0 ==> v.last() == w.last());
        bv_top_clear(g.last());
        lemma_group_canonical(g);
        lemma_canonical_round_trip(v);
        let c = unpack_group(g);
        let u = unpack(v);
        assert(u.len() > 0) by {
            if u.len() == 0 {
                assert(pack(u) =~= Seq::<u8>::empty());
            }
        }
        assert((c + u).take(7) =~= c);
        assert((c + u).skip(7) =~= u);
        assert(w =~= g + v);
    }
}

/// The wire form of `data`.
pub fn pack_payload(data: &[u8]) -> (r: Vec<u8>)
    ensures
        r@ == pack(data@),
{
    let mut out: Vec<u8> = Vec::new();
    let mut index: usize = 0;
    assert(data@.skip(0) =~= data@);
    assert(out@ + pack(data@) =~= pack(data@));
    while index < data.len()
        invariant
            index <= data.len(),
            out@ + pack(data@.skip(index as int)) == pack(data@),
        decreases data.len() - index,
    {
        let n: usize = if data.len() - index < 7 {
            data.len() - index
        } else {
            7
        };
        let ghost prefix = out@;
        let ghost chunk = data@.subrange(index as int, index + n);
        let mut msb: u8 = 0;
        let mut i: usize = 0;
        while i < n
            invariant
                i <= n,
                n <= 7,
                index + n <= data.len(),
                chunk == data@.subrange(index as int, index + n),
                out@ == prefix + Seq::new(i as nat, |k: int| chunk[k] & 0x7fu8),
                msb == msb_collect(chunk.take(i as int)),
            decreases n - i,
        {
            let byte = data[index + i];
            assert(chunk.take(i + 1).drop_last() =~= chunk.take(i as int));
            msb = msb | ((byte >> 7u8) << (i as u8));
            out.push(byte & 0x7f);
            i = i + 1;
            assert(out@ =~= prefix + Seq::new(i as nat, |k: int| chunk[k] & 0x7fu8));
        }
        out.push(msb);
        assert(chunk.take(n as int) =~= chunk);
        assert(out@ =~= prefix + pack_group(chunk));
        proof {
            let ghost s = data@.skip(index as int);
            if s.len() <= 7 {
                assert(s =~= chunk);
                assert(data@.skip(index + n) =~= Seq::<u8>::empty());
            } else {
                assert(s.take(7) =~= chunk);
                assert(s.skip(7) =~= data@.skip(index + n));
            }
        }
        index = index + n;
    }
    assert(data@.skip(index as int) =~= Seq::<u8>::empty());
    assert(out@ =~= pack(data@));
    out
}

/// The 8-bit payload that the wire bytes `wire` stand for.
pub fn unpack_payload(wire: &[u8]) -> (r: Vec<u8>)
    ensures
        r@ == unpack(wire@),
{
    let mut out: Vec<u8> = Vec::new();
    let mut index: usize = 0;
    assert(wire@.skip(0) =~= wire@);
    assert(out@ + unpack(wire@) =~= unpack(wire@));
    while index < wire.len()
        invariant
            index <= wire.len(),
            out@ + unpack(wire@.skip(index as int)) == unpack(wire@),
        decreases wire.len() - index,
    {
        let n: usize = if wire.len() - index < 8 {
            wire.len() - index
        } else {
            8
        };
        let ghost prefix = out@;
        let ghost group = wire@.subrange(index as int, index + n);
        let msb = wire[index + n - 1];
        let mut i: usize = 0;
        while i + 1 < n
            invariant
                i < n,
                n <= 8,
                index + n <= wire.len(),
                group == wire@.subrange(index as int, index + n),
                msb == group.last(),
                out@ == prefix + Seq::new(i as nat, |k: int| restore(group[k], msb, k as u8)),
            decreases n - i,
        {
            let d = wire[index + i];
            out.push((d & 0x7f) | (((msb >> (i as u8)) & 1) << 7u8));
            i = i + 1;
            assert(out@ =~= prefix + Seq::new(i as nat, |k: int| restore(group[k], msb, k as u8)));
        }
        assert(out@ =~= prefix + unpack_group(group));
        proof {
            let ghost s = wire@.skip(index as int);
            if s.len() <= 8 {
                assert(s =~= group);
                assert(wire@.skip(index + n) =~= Seq::<u8>::empty());
            } else {
                assert(s.take(8) =~= group);
                assert(s.skip(8) =~= wire@.skip(index + n));
            }
        }
        index = index + n;
    }
    assert(wire@.skip(index as int) =~= Seq::<u8>::empty());
    assert(out@ =~= unpack(wire@));
    out
}

} // verus!
