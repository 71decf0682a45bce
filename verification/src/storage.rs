//! Page records and the page store.
//!
//! A `PageData` is the unit of persistence: one B+ tree node together with
//! its bookkeeping fields. The `StorageEngine` keeps a paged byte image in
//! which every record occupies one fixed-size, zero-padded slot at the
//! offset `id * page_size`.

use vstd::prelude::*;

use crate::codec;

verus! {

/// Type alias for keys in the B+ tree.
pub type Key = i32;

/// Type alias for values in the B+ tree.
pub type Value = u64;

/// The kind of a B+ tree node.
#[derive(Debug, Clone, Copy, PartialEq, Eq, Structural)]
pub enum NodeType {
    Internal,
    Leaf,
}

/// Default page size (4 KiB) used by the demo configuration.
pub const PAGE_SIZE: usize = 4096;

/// The smallest page size the store accepts: large enough that an empty
/// record of either kind always fits in one slot.
pub const MIN_PAGE_SIZE: usize = 64;

/// Errors surfaced by the storage layers and the tree index.
#[derive(Debug, Clone, Copy, PartialEq, Eq, Structural)]
pub enum Error {
    /// A file-level failure: here, the page-identifier space is exhausted.
    Io,
    /// A page slot could not be decoded, or a read was out of range.
    CorruptPage,
    /// An encoded record does not fit in one page slot.
    RecordTooLarge,
    /// The key being inserted is already present.
    DuplicateKey,
    /// A tree-consistency check failed. The index proves its own
    /// bookkeeping sound, so none of its operations ever returns this; the
    /// variant stands for callers that persist and reload foreign images.
    InvalidChildIndex,
}

/// The mathematical content of one page record.
#[verifier::ext_equal]
pub struct PageView {
    pub id: u32,
    pub node_type: NodeType,
    pub keys: Seq<i32>,
    pub children: Seq<u32>,
    pub values: Seq<u64>,
    pub next: Option<u32>,
    pub parent_id: Option<u32>,
}

/// Data stored within a page: one tree node.
#[derive(Debug, PartialEq)]
pub struct PageData {
    pub id: u32,
    pub node_type: NodeType,
    /// Keys, strictly ascending within the page.
    pub keys: Vec<Key>,
    /// Child page ids (internal pages only).
    pub children: Vec<u32>,
    /// Stored values, one per key (leaf pages only).
    pub values: Vec<Value>,
    /// Next leaf page id in key order (leaf pages only).
    pub next: Option<u32>,
    /// Owning internal page; `None` only for the root.
    pub parent_id: Option<u32>,
}

impl View for PageData {
    type V = PageView;

    open spec fn view(&self) -> PageView {
        PageView {
            id: self.id,
            node_type: self.node_type,
            keys: self.keys@,
            children: self.children@,
            values: self.values@,
            next: self.next,
            parent_id: self.parent_id,
        }
    }
}

/// Copies a vector of plain values element by element.
fn copy_vec<T: Copy>(v: &Vec<T>) -> (r: Vec<T>)
    ensures
        r@ == v@,
{
    let mut r: Vec<T> = Vec::new();
    let mut i: usize = 0;
    while i < v.len()
        invariant
            i <= v.len(),
            r@ == v@.take(i as int),
        decreases v.len() - i,
    {
        r.push(v[i]);
        proof {
            assert(v@.take((i + 1) as int) =~= v@.take(i as int).push(v@[i as int]));
        }
        i += 1;
    }
    proof {
        assert(v@.take(v@.len() as int) =~= v@);
    }
    r
}

impl Clone for PageData {
    fn clone(&self) -> (r: Self)
        ensures
            r@ == self@,
    {
        let r = PageData {
            id: self.id,
            node_type: self.node_type,
            keys: copy_vec(&self.keys),
            children: copy_vec(&self.children),
            values: copy_vec(&self.values),
            next: self.next,
            parent_id: self.parent_id,
        };
        proof {
            assert(r@ =~= self@);
        }
        r
    }
}

impl PageData {
    /// Creates a new, empty record of the given kind.
    pub fn new(id: u32, node_type: NodeType) -> (r: Self)
        ensures
            r@ == blank_page(id, node_type),
    {
        let r = PageData {
            id,
            node_type,
            keys: Vec::new(),
            children: Vec::new(),
            values: Vec::new(),
            next: None,
            parent_id: None,
        };
        proof {
            assert(r@ =~~= blank_page(id, node_type));
        }
        r
    }
}

/// The view of a freshly allocated page of the given kind.
pub open spec fn blank_page(id: u32, node_type: NodeType) -> PageView {
    PageView {
        id,
        node_type,
        keys: Seq::empty(),
        children: Seq::empty(),
        values: Seq::empty(),
        next: None,
        parent_id: None,
    }
}

/// The largest page count the engine accepts: page ids are 32 bits wide.
pub const MAX_PAGE_COUNT: usize = 0xFFFF_FFFF;

/// The largest page size the engine accepts.
pub const MAX_PAGE_SIZE: usize = 0x1000_0000;

/// The bytes of one persisted slot: the record's encoding, zero-padded to
/// the slot size.
pub open spec fn slot_bytes(m: PageView, page_size: int) -> Seq<u8> {
    codec::spec_encode(m) + Seq::new((page_size - codec::encoded_len(m)) as nat, |t: int| 0u8)
}

/// `bytes` is exactly the persisted image of the records `ms`: one
/// zero-padded slot per record at offset `id * page_size`, ids equal to
/// slot numbers, every record fitting its slot.
pub open spec fn image_matches(bytes: Seq<u8>, ms: Seq<PageView>, page_size: int) -> bool {
    &&& bytes.len() == ms.len() * page_size
    &&& forall|i: int| 0 <= i < ms.len() ==> (#[trigger] ms[i]).id == i
    &&& forall|i: int|
        0 <= i < ms.len() ==> codec::encoded_len(#[trigger] ms[i]) <= page_size
    &&& forall|i: int|
        0 <= i < ms.len() ==> bytes.subrange(i * page_size, (i + 1) * page_size) == slot_bytes(
            #[trigger] ms[i],
            page_size,
        )
}

/// StorageEngine persists page records, each in one fixed-size zero-padded
/// slot of a paged byte image at the offset `id * page_size`. The image is
/// always a whole number of slots. A caller that keeps a file on disk loads
/// the image at start and writes it back after mutations.
pub struct StorageEngine {
    page_size: usize,
    file: Vec<u8>,
    pages: Ghost<Seq<PageView>>,
}

impl View for StorageEngine {
    type V = Seq<PageView>;

    closed spec fn view(&self) -> Seq<PageView> {
        self.pages@
    }
}

impl StorageEngine {
    /// The bytes of slot `i` of the image.
    spec fn slot(self, i: int) -> Seq<u8> {
        self.file@.subrange(i * self.page_size as int, (i + 1) * self.page_size as int)
    }

    pub closed spec fn page_size_spec(self) -> int {
        self.page_size as int
    }

    /// The store is well formed: the byte image is exactly the persisted
    /// image of its records — one zero-padded slot each.
    pub closed spec fn wf(self) -> bool {
        &&& MIN_PAGE_SIZE <= self.page_size <= MAX_PAGE_SIZE
        &&& self.pages@.len() <= MAX_PAGE_COUNT as int + 1
        &&& image_matches(self.file@, self.pages@, self.page_size as int)
    }

    /// Creates an empty store with the given slot size.
    pub fn new(page_size: usize) -> (s: Self)
        requires
            MIN_PAGE_SIZE <= page_size <= MAX_PAGE_SIZE,
        ensures
            s.wf(),
            s@ == Seq::<PageView>::empty(),
            s.page_size_spec() == page_size,
    {
        let s = StorageEngine { page_size, file: Vec::new(), pages: Ghost(Seq::empty()) };
        proof {
            assert(s.file@.len() == 0);
        }
        s
    }

    pub fn page_size(&self) -> (n: usize)
        ensures
            n == self.page_size_spec(),
    {
        self.page_size
    }

    /// Rebuilds a store from a persisted byte image: the exact inverse of
    /// [`Self::image`]. Fails with `CorruptPage` — and only then — when the
    /// bytes are not a whole number of slots, a slot does not decode to a
    /// record carrying the slot's own number, or a slot is not that
    /// record's encoding followed by zero padding: any image a well-formed
    /// store produced loads back losslessly.
    #[verifier::rlimit(100)]
    pub fn from_image(page_size: usize, bytes: Vec<u8>) -> (r: Result<Self, Error>)
        requires
            MIN_PAGE_SIZE <= page_size <= MAX_PAGE_SIZE,
        ensures
            match r {
                Ok(s) => {
                    &&& s.wf()
                    &&& s.page_size_spec() == page_size
                    &&& image_matches(bytes@, s@, page_size as int)
                },
                Err(e) => e == Error::CorruptPage,
            },
            forall|ms: Seq<PageView>|
                ms.len() <= MAX_PAGE_COUNT as int && #[trigger] image_matches(bytes@, ms, page_size as int) ==> (r matches Ok(s) && s@ == ms),
    {
        let blen = bytes.len();
        if blen % page_size != 0 {
            proof {
                assert forall|ms: Seq<PageView>|
                    !(ms.len() <= MAX_PAGE_COUNT as int && #[trigger] image_matches(bytes@, ms, page_size as int)) by {
                    if image_matches(bytes@, ms, page_size as int) {
                        assert((ms.len() as int * page_size as int) % (page_size as int) == 0)
                            by (nonlinear_arith)
                            requires
                                page_size as int > 0,
                        ;
                    }
                }
            }
            return Err(Error::CorruptPage);
        }
        let n = blen / page_size;
        proof {
            assert(n as int * page_size as int == blen as int) by (nonlinear_arith)
                requires
                    page_size as int > 0,
                    blen as int % (page_size as int) == 0,
                    n as int == blen as int / (page_size as int),
            ;
        }
        if n > MAX_PAGE_COUNT {
            proof {
                assert forall|ms: Seq<PageView>|
                    !(ms.len() <= MAX_PAGE_COUNT as int && #[trigger] image_matches(bytes@, ms, page_size as int)) by {
                    if image_matches(bytes@, ms, page_size as int) {
                        assert(ms.len() as int == n as int) by (nonlinear_arith)
                            requires
                                page_size as int > 0,
                                ms.len() as int * page_size as int == n as int * (
                                page_size as int),
                        ;
                    }
                }
            }
            return Err(Error::CorruptPage);
        }
        let mut pages: Ghost<Seq<PageView>> = Ghost(Seq::empty());
        let mut i: usize = 0;
        while i < n
            invariant
                i <= n,
                MIN_PAGE_SIZE <= page_size <= MAX_PAGE_SIZE,
                n <= MAX_PAGE_COUNT,
                blen == bytes@.len(),
                n as int * page_size as int == blen as int,
                pages@.len() == i,
                forall|j: int| 0 <= j < i ==> (#[trigger] pages@[j]).id == j,
                forall|j: int|
                    0 <= j < i ==> codec::encoded_len(#[trigger] pages@[j])
                        <= page_size as int,
                forall|j: int|
                    0 <= j < i ==> bytes@.subrange(
                        j * page_size as int,
                        (j + 1) * page_size as int,
                    ) == slot_bytes(#[trigger] pages@[j], page_size as int),
            decreases n - i,
        {
            proof {
                assert((i as int + 1) * page_size as int <= n as int * page_size as int && (
                i as int + 1) * page_size as int == i as int * page_size as int
                    + page_size as int) by (nonlinear_arith)
                    requires
                        i as int + 1 <= n as int,
                        page_size as int >= 0,
                ;
            }
            let off = i * page_size;
            let mut buf: Vec<u8> = Vec::new();
            let mut t: usize = 0;
            while t < page_size
                invariant
                    t <= page_size,
                    blen == bytes@.len(),
                    off == i * page_size as int,
                    off + page_size <= blen,
                    buf@ == bytes@.subrange(off as int, off as int + t as int),
                decreases page_size - t,
            {
                buf.push(bytes[off + t]);
                proof {
                    assert(bytes@.subrange(off as int, off as int + t as int + 1)
                        =~= bytes@.subrange(off as int, off as int + t as int).push(
                        bytes@[off as int + t as int],
                    ));
                }
                t += 1;
            }
            let ghost this_slot = bytes@.subrange(
                i as int * page_size as int,
                (i as int + 1) * page_size as int,
            );
            proof {
                assert(buf@ =~= this_slot);
                // Whenever a record set matches the whole image, this slot
                // pins its record.
                assert forall|ms: Seq<PageView>|
                    ms.len() <= MAX_PAGE_COUNT as int && #[trigger] image_matches(bytes@, ms, page_size as int) implies codec::small(ms[i as int]) && codec::starts_with(
                    buf@,
                    codec::spec_encode(ms[i as int]),
                ) by {
                    assert(ms.len() as int == n as int) by (nonlinear_arith)
                        requires
                            page_size as int > 0,
                            ms.len() as int * page_size as int == n as int * (page_size as int),
                    ;
                    assert(this_slot == slot_bytes(ms[i as int], page_size as int));
                    codec::lemma_encode_len(ms[i as int]);
                    assert(buf@.subrange(0, codec::encoded_len(ms[i as int]))
                        =~= codec::spec_encode(ms[i as int]));
                }
            }
            let p = match codec::decode_page(&buf) {
                Some(p) => p,
                None => {
                    return Err(Error::CorruptPage);
                },
            };
            proof {
                // Whenever a record set matches the whole image, the slot's
                // record is exactly the one just decoded.
                assert forall|ms: Seq<PageView>|
                    ms.len() <= MAX_PAGE_COUNT as int && #[trigger] image_matches(
                        bytes@,
                        ms,
                        page_size as int,
                    ) implies ms.len() == n as int && p@ == ms[i as int] && buf@ == slot_bytes(
                    ms[i as int],
                    page_size as int,
                ) by {
                    assert(ms.len() as int == n as int) by (nonlinear_arith)
                        requires
                            page_size as int > 0,
                            ms.len() as int * page_size as int == n as int * (page_size as int),
                    ;
                    assert(buf@ == slot_bytes(ms[i as int], page_size as int));
                    assert(codec::starts_with(buf@, codec::spec_encode(ms[i as int])));
                }
            }
            if p.id != i as u32 {
                return Err(Error::CorruptPage);
            }
            let enc = codec::encode_page(&p);
            proof {
                codec::lemma_encode_len(p@);
            }
            if enc.len() > page_size {
                return Err(Error::CorruptPage);
            }
            let mut t: usize = 0;
            while t < page_size
                invariant
                    t <= page_size,
                    enc@.len() <= page_size,
                    buf@.len() == page_size,
                    enc@ == codec::spec_encode(p@),
                    enc@.len() == codec::encoded_len(p@),
                    forall|u: int|
                        0 <= u < t ==> buf@[u] == (if u < enc@.len() {
                            enc@[u]
                        } else {
                            0u8
                        }),
                    forall|ms: Seq<PageView>|
                        ms.len() <= MAX_PAGE_COUNT as int && #[trigger] image_matches(
                            bytes@,
                            ms,
                            page_size as int,
                        ) ==> ms.len() == n as int && p@ == ms[i as int] && buf@ == slot_bytes(
                            ms[i as int],
                            page_size as int,
                        ),
                decreases page_size - t,
            {
                let expected = if t < enc.len() {
                    enc[t]
                } else {
                    0u8
                };
                if buf[t] != expected {
                    proof {
                        assert forall|ms: Seq<PageView>|
                            !(ms.len() <= MAX_PAGE_COUNT as int && #[trigger] image_matches(
                                bytes@,
                                ms,
                                page_size as int,
                            )) by {
                            if ms.len() <= MAX_PAGE_COUNT as int && image_matches(
                                bytes@,
                                ms,
                                page_size as int,
                            ) {
                                assert(p@ == ms[i as int]);
                                assert(buf@ == slot_bytes(ms[i as int], page_size as int));
                                assert(buf@[t as int] == slot_bytes(
                                    p@,
                                    page_size as int,
                                )[t as int]);
                            }
                        }
                    }
                    return Err(Error::CorruptPage);
                }
                t += 1;
            }
            proof {
                assert(buf@ =~= slot_bytes(p@, page_size as int));
                pages@ = pages@.push(p@);
            }
            i += 1;
        }
        let s = StorageEngine { page_size, file: bytes, pages };
        proof {
            assert(s.wf());
            assert forall|ms: Seq<PageView>|
                ms.len() <= MAX_PAGE_COUNT as int && #[trigger] image_matches(bytes@, ms, page_size as int) implies s@ == ms by {
                assert(ms.len() as int == n as int) by (nonlinear_arith)
                    requires
                        page_size as int > 0,
                        ms.len() as int * page_size as int == n as int * (page_size as int),
                ;
                assert forall|j: int| 0 <= j < n implies ms[j] == pages@[j] by {
                    let sj = bytes@.subrange(j * page_size as int, (j + 1) * page_size as int);
                    assert(sj == slot_bytes(ms[j], page_size as int));
                    assert(sj == slot_bytes(pages@[j], page_size as int));
                    codec::lemma_encode_len(ms[j]);
                    codec::lemma_encode_len(pages@[j]);
                    assert(codec::starts_with(sj, codec::spec_encode(ms[j]))) by {
                        assert(sj.subrange(0, codec::encoded_len(ms[j])) =~= codec::spec_encode(
                            ms[j],
                        ));
                    }
                    assert(codec::starts_with(sj, codec::spec_encode(pages@[j]))) by {
                        assert(sj.subrange(0, codec::encoded_len(pages@[j]))
                            =~= codec::spec_encode(pages@[j]));
                    }
                    codec::lemma_codec_unique(sj, ms[j], pages@[j]);
                }
                assert(ms =~= pages@);
            }
        }
        Ok(s)
    }

    /// Number of allocated pages: the image length divided by the slot size.
    pub fn num_pages(&self) -> (n: usize)
        requires
            self.wf(),
        ensures
            n == self@.len(),
    {
        let n = self.file.len() / self.page_size;
        proof {
            let c = self.pages@.len() as int;
            let ps = self.page_size as int;
            assert(c * ps / ps == c) by (nonlinear_arith)
                requires
                    ps > 0,
                    c >= 0,
            ;
        }
        n
    }

    /// The byte image of the whole store: always a whole number of slots,
    /// each slot holding its record's encoding zero-padded to the slot
    /// size.
    pub fn image(&self) -> (r: &Vec<u8>)
        requires
            self.wf(),
        ensures
            r@.len() == self@.len() * self.page_size_spec(),
            image_matches(r@, self@, self.page_size_spec()),
    {
        &self.file
    }

    /// Reads the record stored in slot `page_id`. Fails with `CorruptPage`
    /// exactly when no such page has been allocated.
    pub fn read_page(&self, page_id: u32) -> (r: Result<PageData, Error>)
        requires
            self.wf(),
        ensures
            match r {
                Ok(p) => page_id < self@.len() && p@ == self@[page_id as int],
                Err(e) => e == Error::CorruptPage && page_id >= self@.len(),
            },
    {
        let n = self.num_pages();
        if page_id as usize >= n {
            return Err(Error::CorruptPage);
        }
        let idx = page_id as usize;
        let flen = self.file.len();
        proof {
            let ps = self.page_size as int;
            assert((idx as int + 1) * ps <= self.pages@.len() as int * ps && (idx as int + 1) * ps
                == idx as int * ps + ps) by (nonlinear_arith)
                requires
                    idx as int + 1 <= self.pages@.len() as int,
                    ps >= 0,
            ;
        }
        let off = idx * self.page_size;
        let mut buf: Vec<u8> = Vec::new();
        let mut i: usize = 0;
        while i < self.page_size
            invariant
                i <= self.page_size,
                flen == self.file@.len(),
                off == idx * self.page_size as int,
                off + self.page_size <= flen,
                buf@ == self.file@.subrange(off as int, off as int + i as int),
            decreases self.page_size - i,
        {
            buf.push(self.file[off + i]);
            proof {
                assert(self.file@.subrange(off as int, off as int + i as int + 1)
                    =~= self.file@.subrange(off as int, off as int + i as int).push(
                    self.file@[off as int + i as int],
                ));
            }
            i += 1;
        }
        let m = Ghost(self.pages@[idx as int]);
        proof {
            codec::lemma_encode_len(m@);
            assert(buf@ =~= self.slot(idx as int));
            assert(codec::small(m@));
            assert(self.slot(idx as int) == slot_bytes(m@, self.page_size as int));
            assert(codec::starts_with(buf@, codec::spec_encode(m@))) by {
                assert(buf@.subrange(0, codec::encoded_len(m@)) =~= codec::spec_encode(m@));
            }
        }
        match codec::decode_page(&buf) {
            Some(p) => {
                proof {
                    assert(p@ == m@);
                }
                Ok(p)
            },
            None => {
                proof {
                    assert(false);
                }
                Err(Error::CorruptPage)
            },
        }
    }

    /// Writes a record over its slot. Fails with `RecordTooLarge` exactly
    /// when the encoded record does not fit in one slot; nothing changes in
    /// that case. Slots of freshly allocated pages come from
    /// [`Self::allocate_page`], so the target slot always exists.
    pub fn write_page(&mut self, page_data: &PageData) -> (r: Result<(), Error>)
        requires
            old(self).wf(),
            page_data@.id < old(self)@.len(),
        ensures
            final(self).wf(),
            final(self).page_size_spec() == old(self).page_size_spec(),
            match r {
                Ok(_) => final(self)@ == old(self)@.update(page_data@.id as int, page_data@),
                Err(e) => {
                    &&& e == Error::RecordTooLarge
                    &&& final(self)@ == old(self)@
                },
            },
            r is Ok <==> codec::encoded_len(page_data@) <= old(self).page_size_spec(),
    {
        let enc = codec::encode_page(page_data);
        proof {
            codec::lemma_encode_len(page_data@);
        }
        if enc.len() > self.page_size {
            return Err(Error::RecordTooLarge);
        }
        let mut buf = enc;
        proof {
            assert(buf@.subrange(0, buf@.len() as int) =~= buf@);
        }
        while buf.len() < self.page_size
            invariant
                codec::encoded_len(page_data@) <= buf@.len() <= self.page_size,
                codec::starts_with(buf@, codec::spec_encode(page_data@)),
                forall|t: int|
                    codec::encoded_len(page_data@) <= t < buf@.len() ==> buf@[t] == 0u8,
                self == old(self),
            decreases self.page_size - buf@.len(),
        {
            buf.push(0u8);
            proof {
                let e = codec::spec_encode(page_data@);
                assert(buf@.subrange(0, e.len() as int) =~= e);
            }
        }
        proof {
            assert(buf@ =~= slot_bytes(page_data@, self.page_size as int));
        }
        let idx = page_data.id as usize;
        let flen = self.file.len();
        proof {
            let ps = self.page_size as int;
            assert((idx as int + 1) * ps <= self.pages@.len() as int * ps && (idx as int + 1) * ps
                == idx as int * ps + ps) by (nonlinear_arith)
                requires
                    idx as int + 1 <= self.pages@.len() as int,
                    ps >= 0,
            ;
        }
        let off = idx * self.page_size;
        let mut i: usize = 0;
        while i < self.page_size
            invariant
                i <= self.page_size,
                self.page_size == old(self).page_size,
                self.pages == old(self).pages,
                buf@.len() == self.page_size,
                flen == self.file@.len(),
                self.file@.len() == old(self).file@.len(),
                off == idx * self.page_size as int,
                off + self.page_size <= flen,
                forall|j: int|
                    0 <= j < self.file@.len() ==> #[trigger] self.file@[j] == if off <= j < off
                        + i as int {
                        buf@[j - off]
                    } else {
                        old(self).file@[j]
                    },
            decreases self.page_size - i,
        {
            self.file.set(off + i, buf[i]);
            i += 1;
        }
        proof {
            let id = page_data@.id as int;
            let ps = self.page_size as int;
            let oldpages = self.pages@;
            self.pages@ = self.pages@.update(id, page_data@);
            assert forall|k: int| 0 <= k < self.pages@.len() && k != id implies self.slot(k)
                =~= old(self).slot(k) by {
                assert((k + 1) * ps == k * ps + ps && (k + 1) * ps <= self.pages@.len() as int
                    * ps) by (nonlinear_arith)
                    requires
                        k + 1 <= self.pages@.len() as int,
                        ps >= 0,
                ;
                if k < id {
                    assert((k + 1) * ps <= id * ps) by (nonlinear_arith)
                        requires
                            k + 1 <= id,
                            ps >= 0,
                    ;
                } else {
                    assert((id + 1) * ps <= k * ps && (id + 1) * ps == id * ps + ps)
                        by (nonlinear_arith)
                        requires
                            id + 1 <= k,
                            ps >= 0,
                    ;
                }
            }
            assert(self.slot(id) =~= buf@);
            assert forall|k: int| 0 <= k < self.pages@.len() implies self.slot(k) == slot_bytes(
                #[trigger] self.pages@[k],
                ps,
            ) by {
                if k != id {
                    assert(self.pages@[k] == oldpages[k]);
                    assert(old(self).wf());
                    assert(old(self).slot(k) == slot_bytes(oldpages[k], ps));
                }
            }
            assert forall|k: int| 0 <= k < self.pages@.len() implies self.file@.subrange(
                k * ps,
                (k + 1) * ps,
            ) == slot_bytes(#[trigger] self.pages@[k], ps) by {
                assert(self.slot(k) == slot_bytes(self.pages@[k], ps));
            }
        }
        Ok(())
    }

    /// Allocates the next page id, writes a blank record of the given kind
    /// into a fresh slot, and returns the record. Fails with `Io` exactly
    /// when the 32-bit page-identifier space is exhausted.
    pub fn allocate_page(&mut self, node_type: NodeType) -> (r: Result<PageData, Error>)
        requires
            old(self).wf(),
        ensures
            final(self).wf(),
            final(self).page_size_spec() == old(self).page_size_spec(),
            match r {
                Ok(p) => {
                    &&& old(self)@.len() <= MAX_PAGE_COUNT as int
                    &&& p@ == blank_page(old(self)@.len() as u32, node_type)
                    &&& final(self)@ == old(self)@.push(p@)
                },
                Err(e) => {
                    &&& e == Error::Io
                    &&& old(self)@.len() > MAX_PAGE_COUNT as int
                    &&& final(self)@ == old(self)@
                },
            },
    {
        let n = self.num_pages();
        if n > MAX_PAGE_COUNT {
            return Err(Error::Io);
        }
        let page = PageData::new(n as u32, node_type);
        let enc = codec::encode_page(&page);
        proof {
            codec::lemma_encode_len(page@);
            assert(enc@.subrange(0, enc@.len() as int) =~= enc@);
        }
        let mut buf = enc;
        while buf.len() < self.page_size
            invariant
                codec::encoded_len(page@) <= buf@.len() <= self.page_size,
                codec::starts_with(buf@, codec::spec_encode(page@)),
                forall|t: int| codec::encoded_len(page@) <= t < buf@.len() ==> buf@[t] == 0u8,
                self == old(self),
            decreases self.page_size - buf@.len(),
        {
            buf.push(0u8);
            proof {
                let e = codec::spec_encode(page@);
                assert(buf@.subrange(0, e.len() as int) =~= e);
            }
        }
        proof {
            assert(buf@ =~= slot_bytes(page@, self.page_size as int));
        }
        let mut i: usize = 0;
        while i < self.page_size
            invariant
                i <= self.page_size,
                self.page_size == old(self).page_size,
                self.pages == old(self).pages,
                buf@.len() == self.page_size,
                self.file@ == old(self).file@ + buf@.subrange(0, i as int),
            decreases self.page_size - i,
        {
            self.file.push(buf[i]);
            proof {
                assert(old(self).file@ + buf@.subrange(0, i as int + 1) =~= (old(self).file@
                    + buf@.subrange(0, i as int)).push(buf@[i as int]));
            }
            i += 1;
        }
        proof {
            let ps = self.page_size as int;
            let c = old(self).pages@.len() as int;
            self.pages@ = self.pages@.push(page@);
            assert(buf@.subrange(0, ps) =~= buf@);
            assert(self.file@.len() == (c + 1) * ps) by (nonlinear_arith)
                requires
                    self.file@.len() == c * ps + ps,
            ;
            assert forall|k: int| 0 <= k < c implies self.slot(k) =~= old(self).slot(k) by {
                assert((k + 1) * ps <= c * ps && (k + 1) * ps == k * ps + ps) by (nonlinear_arith)
                    requires
                        k + 1 <= c,
                        ps >= 0,
                ;
            }
            assert(self.slot(c) =~= buf@);
            assert forall|k: int| 0 <= k < self.pages@.len() implies self.slot(k) == slot_bytes(
                #[trigger] self.pages@[k],
                ps,
            ) by {
                if k < c {
                    assert(self.pages@[k] == old(self).pages@[k]);
                    assert(old(self).wf());
                    assert(old(self).slot(k) == slot_bytes(old(self).pages@[k], ps));
                }
            }
            assert forall|k: int| 0 <= k < self.pages@.len() implies self.file@.subrange(
                k * ps,
                (k + 1) * ps,
            ) == slot_bytes(#[trigger] self.pages@[k], ps) by {
                assert(self.slot(k) == slot_bytes(self.pages@[k], ps));
            }
        }
        Ok(page)
    }
}

} // verus!
