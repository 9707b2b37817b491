use vstd::prelude::*;

use crate::bytes::{bytes_eq, push_bytes, push_u32_le, u32_le_bytes};
use crate::crypto::{sha256, sha256_of};
use crate::error::StateError;

verus! {

/// A Bitcoin block header, held as the plain values this core reads.
#[derive(Clone, Debug)]
pub struct BtcHeader {
    pub version: u32,
    pub prev_blockhash: Vec<u8>,
    pub merkle_root: Vec<u8>,
    pub time: u32,
    pub bits: u32,
    pub nonce: u32,
}

/// The mathematical model of a header: its fields as plain values.
#[verifier::ext_equal]
pub struct HeaderV {
    pub version: u32,
    pub prev_blockhash: Seq<u8>,
    pub merkle_root: Seq<u8>,
    pub time: u32,
    pub bits: u32,
    pub nonce: u32,
}

impl View for BtcHeader {
    type V = HeaderV;

    open spec fn view(&self) -> HeaderV {
        HeaderV {
            version: self.version,
            prev_blockhash: self.prev_blockhash@,
            merkle_root: self.merkle_root@,
            time: self.time,
            bits: self.bits,
            nonce: self.nonce,
        }
    }
}

/// A header together with the height it sits at in the chain.
#[derive(Clone, Debug)]
pub struct EnrichedHeader {
    pub header: BtcHeader,
    pub height: u32,
}

/// The 80-byte Bitcoin consensus encoding of a header.
pub open spec fn header_bytes(h: HeaderV) -> Seq<u8> {
    u32_le_bytes(h.version) + h.prev_blockhash + h.merkle_root + u32_le_bytes(h.time) + u32_le_bytes(
        h.bits,
    ) + u32_le_bytes(h.nonce)
}

/// The block hash of a header: the double SHA-256 of its encoding.
pub open spec fn block_hash_spec(h: HeaderV) -> Seq<u8> {
    sha256_of(sha256_of(header_bytes(h)))
}

/// Serializes a header into its consensus encoding.
pub fn encode_header(h: &BtcHeader) -> (r: Vec<u8>)
    ensures
        r@ == header_bytes(h@),
{
    let mut out: Vec<u8> = Vec::new();
    push_u32_le(&mut out, h.version);
    push_bytes(&mut out, &h.prev_blockhash);
    push_bytes(&mut out, &h.merkle_root);
    push_u32_le(&mut out, h.time);
    push_u32_le(&mut out, h.bits);
    push_u32_le(&mut out, h.nonce);
    assert(out@ =~= header_bytes(h@));
    out
}

/// Computes a header's block hash.
pub fn block_hash(h: &BtcHeader) -> (r: Vec<u8>)
    ensures
        r@ == block_hash_spec(h@),
        r@.len() == 32,
{
    let once = sha256(&encode_header(h));
    sha256(&once)
}

/// The SPV header store: a contiguous run of headers anchored at a trusted
/// checkpoint height. A header is accepted only if it extends the stored tip
/// by hash linkage; deposits are validated against the stored merkle roots.
///
/// Proof-of-work validation against the target encoded in `bits` is
/// deliberately left to the surrounding cache service, which by its contract
/// serves only sufficiently buried headers; deposit security rests on that
/// service together with the hash linkage enforced here.
pub struct HeaderCache {
    base: u32,
    headers: Vec<BtcHeader>,
}

/// The model of the header store: the anchor height and the headers, lowest
/// height first.
#[verifier::ext_equal]
pub struct HeaderCacheV {
    pub base: u32,
    pub headers: Seq<HeaderV>,
}

impl View for HeaderCache {
    type V = HeaderCacheV;

    closed spec fn view(&self) -> HeaderCacheV {
        HeaderCacheV { base: self.base, headers: self.headers@.map_values(|h: BtcHeader| h@) }
    }
}

/// Whether the stored run covers height `h`.
pub open spec fn covers(c: HeaderCacheV, h: u32) -> bool {
    c.headers.len() > 0 && c.base <= h && h - c.base < c.headers.len()
}

/// Whether a raw insertion at `height` is accepted: the store is empty, or
/// `height` is the next height of the run.
pub open spec fn raw_accepted(c: HeaderCacheV, height: u32) -> bool {
    c.headers.len() == 0 || c.base + c.headers.len() == height
}

/// Whether a validated header is accepted: it extends a non-empty run whose
/// next height still fits, by hash linkage to the tip.
pub open spec fn link_accepted(c: HeaderCacheV, h: HeaderV) -> bool {
    c.headers.len() > 0 && c.base + c.headers.len() < 0x1_0000_0000 && h.prev_blockhash
        == block_hash_spec(c.headers.last())
}

impl HeaderCache {
    /// Heights fit in 32 bits.
    pub open spec fn wf(&self) -> bool {
        self@.base + self@.headers.len() <= 0x1_0000_0000
    }

    pub fn new() -> (c: HeaderCache)
        ensures
            c@.headers =~= Seq::<HeaderV>::empty(),
            c.wf(),
    {
        HeaderCache { base: 0, headers: Vec::new() }
    }

    /// The stored header at height `h`, if the run covers that height.
    pub fn get_header_for_height(&self, h: u32) -> (r: Option<&BtcHeader>)
        ensures
            covers(self@, h) ==> (r is Some && r->0@ == self@.headers[h - self@.base]),
            !covers(self@, h) ==> r is None,
    {
        if self.headers.len() == 0 {
            return None;
        }
        if h < self.base {
            return None;
        }
        let idx = (h - self.base) as usize;
        if idx >= self.headers.len() {
            return None;
        }
        Some(&self.headers[idx])
    }

    /// Stores `header` at `height` without validation: the trust anchor when
    /// the store is empty, or the next height of the run.
    pub fn add_header_raw(&mut self, header: BtcHeader, height: u32) -> (r: Result<
        (),
        StateError,
    >)
        requires
            old(self).wf(),
        ensures
            final(self).wf(),
            r is Ok <==> raw_accepted(old(self)@, height),
            r is Ok ==> final(self)@.headers == old(self)@.headers.push(header@),
            r is Ok ==> final(self)@.base == (if old(self)@.headers.len() == 0 {
                height
            } else {
                old(self)@.base
            }),
            r is Err ==> final(self)@ == old(self)@ && r->Err_0 == StateError::BadHeaderChain,
    {
        if self.headers.len() == 0 {
            self.base = height;
            self.headers.push(header);
            assert(self@.headers =~= old(self)@.headers.push(header@));
            return Ok(());
        }
        let next = (self.base as u64) + (self.headers.len() as u64);
        if next == (height as u64) {
            self.headers.push(header);
            assert(self@.headers =~= old(self)@.headers.push(header@));
            Ok(())
        } else {
            Err(StateError::BadHeaderChain)
        }
    }

    /// Appends `header` if its `prev_blockhash` is the block hash of the
    /// stored tip and the next height still fits; fails otherwise.
    pub fn add_header(&mut self, header: BtcHeader) -> (r: Result<(), StateError>)
        requires
            old(self).wf(),
        ensures
            final(self).wf(),
            r is Ok <==> link_accepted(old(self)@, header@),
            r is Ok ==> final(self)@.headers == old(self)@.headers.push(header@),
            r is Ok ==> final(self)@.base == old(self)@.base,
            r is Err ==> final(self)@ == old(self)@ && r->Err_0 == StateError::BadHeaderChain,
    {
        let n = self.headers.len();
        if n == 0 {
            return Err(StateError::BadHeaderChain);
        }
        let next = (self.base as u64) + (n as u64);
        if next >= 0x1_0000_0000u64 {
            return Err(StateError::BadHeaderChain);
        }
        let tip_hash = block_hash(&self.headers[n - 1]);
        proof {
            assert(self@.headers[n - 1] == self@.headers.last());
        }
        if !bytes_eq(&header.prev_blockhash, &tip_hash) {
            return Err(StateError::BadHeaderChain);
        }
        self.headers.push(header);
        assert(self@.headers =~= old(self)@.headers.push(header@));
        Ok(())
    }

    /// Appends a whole ordered batch, atomically: either every header links
    /// and all are stored, or none is and the action fails.
    pub fn add_headers(&mut self, hs: &Vec<BtcHeader>) -> (r: Result<(), StateError>)
        requires
            old(self).wf(),
        ensures
            final(self).wf(),
            ({
                let fold = headers_extend(old(self)@, hs@.map_values(|h: BtcHeader| h@));
                if fold.1 {
                    r is Ok && final(self)@ == fold.0
                } else {
                    r is Err && r->Err_0 == StateError::BadHeaderChain && final(self)@ == old(
                        self,
                    )@
                }
            }),
    {
        let ghost hsv = hs@.map_values(|h: BtcHeader| h@);
        let ghost pre = self@;
        if hs.len() == 0 {
            proof {
                assert(hsv.len() == 0);
            }
            return Ok(());
        }
        if self.headers.len() == 0 {
            proof {
                assert(pre.headers.len() == 0);
                assert(hsv.take(0) =~= Seq::<HeaderV>::empty());
                assert(!link_accepted(pre, hsv[0]));
                lemma_headers_extend_stuck(pre, hsv, 0);
            }
            return Err(StateError::BadHeaderChain);
        }
        let mut prev_hash = block_hash(&self.headers[self.headers.len() - 1]);
        let mut count: u64 = (self.base as u64) + (self.headers.len() as u64);
        let mut i: usize = 0;
        proof {
            assert(hsv.take(0) =~= Seq::<HeaderV>::empty());
            assert(pre.headers + hsv.take(0) =~= pre.headers);
            assert(pre.headers[pre.headers.len() - 1] == pre.headers.last());
        }
        while i < hs.len()
            invariant
                self@ == pre,
                pre == old(self)@,
                pre.base + pre.headers.len() <= 0x1_0000_0000,
                pre.headers.len() > 0,
                hsv == hs@.map_values(|h: BtcHeader| h@),
                i <= hs@.len(),
                hs@.len() == hsv.len(),
                headers_extend(pre, hsv.take(i as int)) == (
                    HeaderCacheV { base: pre.base, headers: pre.headers + hsv.take(i as int) },
                    true,
                ),
                count == pre.base + pre.headers.len() + i,
                count <= 0x1_0000_0000,
                prev_hash@ == block_hash_spec((pre.headers + hsv.take(i as int)).last()),
                prev_hash@.len() == 32,
            decreases hs@.len() - i,
        {
            let ghost ci = HeaderCacheV { base: pre.base, headers: pre.headers + hsv.take(i as int) };
            if count >= 0x1_0000_0000u64 {
                proof {
                    assert(!link_accepted(ci, hsv[i as int]));
                    lemma_headers_extend_stuck(pre, hsv, i as int);
                    assert(hsv.take(hsv.len() as int) =~= hsv);
                }
                return Err(StateError::BadHeaderChain);
            }
            if !bytes_eq(&hs[i].prev_blockhash, &prev_hash) {
                proof {
                    assert(hsv[i as int] == hs@[i as int]@);
                    assert(!link_accepted(ci, hsv[i as int]));
                    lemma_headers_extend_stuck(pre, hsv, i as int);
                    assert(hsv.take(hsv.len() as int) =~= hsv);
                }
                return Err(StateError::BadHeaderChain);
            }
            prev_hash = block_hash(&hs[i]);
            count = count + 1;
            proof {
                assert(hsv[i as int] == hs@[i as int]@);
                assert(link_accepted(ci, hsv[i as int]));
                lemma_headers_extend_push(pre, hsv.take(i as int), hsv[i as int]);
                assert(hsv.take(i as int).push(hsv[i as int]) =~= hsv.take(i as int + 1));
                assert(pre.headers + hsv.take(i as int + 1) =~= (pre.headers + hsv.take(
                    i as int,
                )).push(hsv[i as int]));
                assert((pre.headers + hsv.take(i as int + 1)).last() == hsv[i as int]);
            }
            i = i + 1;
        }
        proof {
            assert(hsv.take(hsv.len() as int) =~= hsv);
        }
        let mut j: usize = 0;
        while j < hs.len()
            invariant
                hsv == hs@.map_values(|h: BtcHeader| h@),
                j <= hs@.len(),
                self@.base == pre.base,
                self@.headers =~= pre.headers + hsv.take(j as int),
                pre.base + pre.headers.len() + hsv.len() <= 0x1_0000_0000,
                hsv.len() == hs@.len(),
            decreases hs@.len() - j,
        {
            let h = &hs[j];
            let copy = BtcHeader {
                version: h.version,
                prev_blockhash: h.prev_blockhash.clone(),
                merkle_root: h.merkle_root.clone(),
                time: h.time,
                bits: h.bits,
                nonce: h.nonce,
            };
            let ghost jold = j as int;
            let ghost oldmap = self@.headers;
            self.headers.push(copy);
            j = j + 1;
            proof {
                assert(copy@ =~= hsv[jold]);
                assert(self@.headers =~= oldmap.push(copy@));
                assert(hsv.take(jold).push(hsv[jold]) =~= hsv.take(jold + 1));
                assert(oldmap.push(copy@) =~= pre.headers + hsv.take(j as int));
                assert(self@.headers =~= pre.headers + hsv.take(j as int));
            }
        }
        proof {
            assert(hsv.take(hsv.len() as int) =~= hsv);
            assert(self@ == HeaderCacheV { base: pre.base, headers: pre.headers + hsv });
        }
        Ok(())
    }
}


/// Whether a batch of headers chains onto the stored run, and the run after
/// appending it; on the first refused header the fold stops.
pub open spec fn headers_extend(c: HeaderCacheV, hs: Seq<HeaderV>) -> (HeaderCacheV, bool)
    decreases hs.len(),
{
    if hs.len() == 0 {
        (c, true)
    } else if link_accepted(c, hs.first()) {
        headers_extend(
            HeaderCacheV { base: c.base, headers: c.headers.push(hs.first()) },
            hs.drop_first(),
        )
    } else {
        (c, false)
    }
}

/// Extending by a batch and then one more header is one more fold step.
pub proof fn lemma_headers_extend_push(c: HeaderCacheV, hs: Seq<HeaderV>, h: HeaderV)
    requires
        headers_extend(c, hs).1,
    ensures
        headers_extend(c, hs.push(h)) == (if link_accepted(headers_extend(c, hs).0, h) {
            (
                HeaderCacheV {
                    base: headers_extend(c, hs).0.base,
                    headers: headers_extend(c, hs).0.headers.push(h),
                },
                true,
            )
        } else {
            (headers_extend(c, hs).0, false)
        }),
    decreases hs.len(),
{
    if hs.len() == 0 {
        assert(hs.push(h).first() == h);
        assert(hs.push(h).drop_first() =~= Seq::<HeaderV>::empty());
        assert(headers_extend(c, hs).0 == c);
        if link_accepted(c, h) {
            let c2 = HeaderCacheV { base: c.base, headers: c.headers.push(h) };
            assert(headers_extend(c, hs.push(h)) == headers_extend(c2, Seq::<HeaderV>::empty()));
        }
    } else {
        assert(hs.push(h).first() == hs.first());
        assert(hs.push(h).drop_first() =~= hs.drop_first().push(h));
        let c1 = HeaderCacheV { base: c.base, headers: c.headers.push(hs.first()) };
        lemma_headers_extend_push(c1, hs.drop_first(), h);
    }
}

/// A batch refused at some step leaves the whole fold refused.
pub proof fn lemma_headers_extend_stuck(c: HeaderCacheV, hs: Seq<HeaderV>, i: int)
    requires
        0 <= i < hs.len(),
        headers_extend(c, hs.take(i)).1,
        !link_accepted(headers_extend(c, hs.take(i)).0, hs[i]),
    ensures
        !headers_extend(c, hs).1,
    decreases hs.len() - i,
{
    if i == hs.len() - 1 {
        assert(hs.take(i).push(hs[i]) =~= hs);
        lemma_headers_extend_push(c, hs.take(i), hs[i]);
    } else {
        assert(hs.take(i).push(hs[i]) =~= hs.take(i + 1));
        lemma_headers_extend_push(c, hs.take(i), hs[i]);
        assert(!headers_extend(c, hs.take(i + 1)).1);
        lemma_headers_extend_stuck_prefix(c, hs, i + 1);
    }
}

/// Once a prefix of the batch is refused, the whole batch is refused.
pub proof fn lemma_headers_extend_stuck_prefix(c: HeaderCacheV, hs: Seq<HeaderV>, i: int)
    requires
        0 <= i <= hs.len(),
        !headers_extend(c, hs.take(i)).1,
    ensures
        !headers_extend(c, hs).1,
    decreases hs.len() - i,
{
    if i == hs.len() {
        assert(hs.take(i) =~= hs);
    } else {
        assert(hs.take(i + 1).take(i) =~= hs.take(i));
        if headers_extend(c, hs.take(i + 1)).1 {
            lemma_headers_extend_prefix_ok(c, hs.take(i + 1), i);
            assert(false);
        }
        lemma_headers_extend_stuck_prefix(c, hs, i + 1);
    }
}

/// A fold that accepts a batch accepts every prefix of it.
pub proof fn lemma_headers_extend_prefix_ok(c: HeaderCacheV, hs: Seq<HeaderV>, i: int)
    requires
        0 <= i <= hs.len(),
        headers_extend(c, hs).1,
    ensures
        headers_extend(c, hs.take(i)).1,
    decreases hs.len(),
{
    if hs.len() > 0 && i > 0 {
        let c1 = HeaderCacheV { base: c.base, headers: c.headers.push(hs.first()) };
        assert(link_accepted(c, hs.first()));
        lemma_headers_extend_prefix_ok(c1, hs.drop_first(), i - 1);
        assert(hs.take(i).first() == hs.first());
        assert(hs.take(i).drop_first() =~= hs.drop_first().take(i - 1));
    } else if i == 0 {
        assert(hs.take(0) =~= Seq::<HeaderV>::empty());
    }
}

} // verus!

