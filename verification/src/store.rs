use vstd::prelude::*;
use vstd::assert_seqs_equal;
use vstd::bytes::{spec_u32_to_le_bytes, spec_u32_from_le_bytes, lemma_auto_spec_u32_to_from_le_bytes,
    u32_from_le_bytes, u32_to_le_bytes};
use vstd::slice::{slice_subrange, slice_to_vec};
use crate::errors::DbError;
use vstd::arithmetic::mul::lemma_mul_upper_bound;
use crate::header::{DbHeader, HEADER_SIZE, MAGIC_NUMBER, spec_encode_header, spec_decode_header,
    lemma_encode_header_len, lemma_encode_decode};
use crate::addressing::{page_start, page_end, page_bytes};

verus! {

broadcast use vstd::seq::group_seq_axioms;

/// `file` extended with zero bytes until it is at least `n` bytes long.
pub open spec fn pad_to(file: Seq<u8>, n: int) -> Seq<u8> {
    if n <= file.len() {
        file
    } else {
        file + Seq::new((n - file.len()) as nat, |i: int| 0u8)
    }
}

/// `file` with the bytes at `start .. start + b.len()` replaced by `b`.
pub open spec fn splice(file: Seq<u8>, start: int, b: Seq<u8>) -> Seq<u8>
    recommends
        0 <= start,
        start + b.len() <= file.len(),
{
    file.subrange(0, start) + b + file.subrange(start + b.len(), file.len() as int)
}

/// The next-pointer a reclaimed page stores in its first four bytes.
pub open spec fn next_of(file: Seq<u8>, page_size: u32, p: u32) -> u32
    recommends
        p >= 1,
        page_start(page_size, p) + 4 <= file.len(),
{
    spec_u32_from_le_bytes(file.subrange(page_start(page_size, p), page_start(page_size, p) + 4))
}

/// The mathematical state of a page store: the page geometry, the stack
/// of reclaimed page numbers (most recently freed first), and the byte
/// image of the whole file.
#[verifier::ext_equal]
pub struct StoreModel {
    pub page_size: u32,
    pub total_pages: u32,
    pub free: Seq<u32>,
    pub file: Seq<u8>,
}

/// The header a well-formed store persists at offset 0: head and tail of
/// the free list follow from the free stack itself.
pub open spec fn header_of(m: StoreModel) -> DbHeader {
    DbHeader {
        magic: MAGIC_NUMBER,
        page_size: m.page_size,
        total_pages: m.total_pages,
        free_list_head: if m.free.len() == 0 { 0u32 } else { m.free[0] },
        free_list_tail: if m.free.len() == 0 { 0u32 } else { m.free[m.free.len() - 1] },
    }
}

/// Entry `i` of the free stack is a real data page, lies wholly inside
/// the image, and links to the entry after it (`0` for the last).
pub open spec fn free_entry_ok(m: StoreModel, i: int) -> bool
    recommends
        0 <= i < m.free.len(),
{
    &&& 1 <= m.free[i] <= m.total_pages
    &&& page_end(m.page_size, m.free[i]) <= m.file.len()
    &&& next_of(m.file, m.page_size, m.free[i]) == (if i + 1 < m.free.len() {
        m.free[i + 1]
    } else {
        0u32
    })
}

/// Well-formedness of a store model: sane geometry, the image long
/// enough for a header, the header of the model persisted at offset 0,
/// and the free list a valid chain through the image.
pub open spec fn m_wf(m: StoreModel) -> bool {
    &&& m.page_size >= 4
    &&& m.file.len() >= HEADER_SIZE
    &&& m.file.subrange(0, HEADER_SIZE as int) == spec_encode_header(header_of(m))
    &&& forall|i: int| 0 <= i < m.free.len() ==> #[trigger] free_entry_ok(m, i)
}

/// The image is exactly as long as the header claims: a header plus
/// `total_pages` pages. Bootstrap establishes this and every operation
/// preserves it; only adopting a foreign image can break it.
pub open spec fn m_exact_len(m: StoreModel) -> bool {
    m.file.len() == HEADER_SIZE + m.page_size * m.total_pages
}

/// The state after writing buffer `b` over page `p`: the image is padded
/// with zeros if the page lies past its end, then the page's bytes are
/// replaced. Nothing else changes.
pub open spec fn write_tx(m: StoreModel, p: u32, b: Seq<u8>) -> StoreModel
    recommends
        p >= 1,
        b.len() == m.page_size,
{
    StoreModel {
        page_size: m.page_size,
        total_pages: m.total_pages,
        free: m.free,
        file: splice(pad_to(m.file, page_end(m.page_size, p)), page_start(m.page_size, p), b),
    }
}

/// What reading page `p` returns.
pub open spec fn read_result(m: StoreModel, p: u32) -> Seq<u8> {
    page_bytes(m.file, m.page_size, p)
}

/// The page number an allocation returns: the most recently freed page
/// if any is available, else a freshly grown one.
pub open spec fn alloc_ret(m: StoreModel) -> u32
    recommends
        m.free.len() > 0 || m.total_pages < u32::MAX,
{
    if m.free.len() > 0 {
        m.free[0]
    } else {
        (m.total_pages + 1) as u32
    }
}

/// The state after a successful allocation. Popping the free list only
/// rewrites the header; growing the file appends one zero-filled page
/// and then rewrites the header.
pub open spec fn alloc_tx(m: StoreModel) -> StoreModel
    recommends
        m.free.len() > 0 || m.total_pages < u32::MAX,
{
    if m.free.len() > 0 {
        let m1 = StoreModel {
            page_size: m.page_size,
            total_pages: m.total_pages,
            free: m.free.drop_first(),
            file: m.file,
        };
        StoreModel {
            page_size: m1.page_size,
            total_pages: m1.total_pages,
            free: m1.free,
            file: splice(m.file, 0, spec_encode_header(header_of(m1))),
        }
    } else {
        let p = (m.total_pages + 1) as u32;
        let m1 = StoreModel {
            page_size: m.page_size,
            total_pages: p,
            free: m.free,
            file: m.file,
        };
        let zeroed = splice(
            pad_to(m.file, page_end(m.page_size, p)),
            page_start(m.page_size, p),
            Seq::new(m.page_size as nat, |i: int| 0u8),
        );
        StoreModel {
            page_size: m1.page_size,
            total_pages: m1.total_pages,
            free: m1.free,
            file: splice(zeroed, 0, spec_encode_header(header_of(m1))),
        }
    }
}

/// The state after reclaiming page `p`: the old head's number is written
/// into the first four bytes of `p` (padding the image first if the page
/// lies past its end), `p` becomes the new head, and the header is
/// rewritten.
pub open spec fn free_tx(m: StoreModel, p: u32) -> StoreModel
    recommends
        p >= 1,
{
    let linked = splice(
        pad_to(m.file, page_end(m.page_size, p)),
        page_start(m.page_size, p),
        spec_u32_to_le_bytes(header_of(m).free_list_head),
    );
    let m1 = StoreModel {
        page_size: m.page_size,
        total_pages: m.total_pages,
        free: seq![p] + m.free,
        file: linked,
    };
    StoreModel {
        page_size: m1.page_size,
        total_pages: m1.total_pages,
        free: m1.free,
        file: splice(linked, 0, spec_encode_header(header_of(m1))),
    }
}

/// The model a fresh bootstrap produces: no pages, empty free list, an
/// image holding nothing but the fresh header.
pub open spec fn fresh_model(page_size: u32) -> StoreModel {
    StoreModel {
        page_size: page_size,
        total_pages: 0,
        free: Seq::empty(),
        file: spec_encode_header(
            DbHeader {
                magic: MAGIC_NUMBER,
                page_size: page_size,
                total_pages: 0,
                free_list_head: 0,
                free_list_tail: 0,
            },
        ),
    }
}

/// The free-page chain reached by following next-pointers from `cur`,
/// or `None` if the chain leaves `[1, total_pages]`, runs off the image,
/// or does not reach `0` within `fuel` steps.
pub open spec fn chain_from(file: Seq<u8>, h: DbHeader, cur: u32, fuel: nat) -> Option<Seq<u32>>
    decreases fuel,
{
    if cur == 0 {
        Some(Seq::empty())
    } else if fuel == 0 {
        None
    } else if 1 <= cur && cur <= h.total_pages && page_end(h.page_size, cur) <= file.len() {
        match chain_from(file, h, next_of(file, h.page_size, cur), (fuel - 1) as nat) {
            Some(rest) => Some(seq![cur] + rest),
            None => None,
        }
    } else {
        None
    }
}

/// The free-page chain a byte image declares, starting at the persisted
/// head. Any chain longer than `total_pages` repeats a page and so never
/// reaches `0`: the fuel bound rejects exactly the cyclic chains.
pub open spec fn spec_chain(file: Seq<u8>) -> Option<Seq<u32>> {
    let h = spec_decode_header(file);
    chain_from(file, h, h.free_list_head, h.total_pages as nat)
}

/// A byte image a store can adopt as it stands: long enough for a
/// header, the right magic, a usable page size, and a free list that is
/// a valid chain whose tail field matches its last page.
pub open spec fn valid_image(file: Seq<u8>) -> bool {
    let h = spec_decode_header(file);
    &&& file.len() >= HEADER_SIZE
    &&& h.magic == MAGIC_NUMBER
    &&& h.page_size >= 4
    &&& spec_chain(file) matches Some(fl) && h.free_list_tail == (if fl.len() == 0 {
        0u32
    } else {
        fl[fl.len() - 1]
    })
}

/// Length and pointwise characterization of `pad_to`.
pub proof fn lemma_pad_to_props(file: Seq<u8>, n: int)
    ensures
        pad_to(file, n).len() == (if n <= file.len() {
            file.len() as int
        } else {
            n
        }),
        forall|i: int| 0 <= i < file.len() ==> #[trigger] pad_to(file, n)[i] == file[i],
        forall|i: int| file.len() <= i < n ==> #[trigger] pad_to(file, n)[i] == 0u8,
{
}

/// Length and pointwise characterization of `splice`.
pub proof fn lemma_splice_props(file: Seq<u8>, start: int, b: Seq<u8>)
    requires
        0 <= start,
        start + b.len() <= file.len(),
    ensures
        splice(file, start, b).len() == file.len(),
        forall|i: int| 0 <= i < start ==> #[trigger] splice(file, start, b)[i] == file[i],
        forall|i: int|
            start <= i < start + b.len() ==> #[trigger] splice(file, start, b)[i] == b[i - start],
        forall|i: int|
            start + b.len() <= i < file.len() ==> #[trigger] splice(file, start, b)[i] == file[i],
{
}

/// Distinct pages occupy disjoint byte ranges.
pub proof fn lemma_pages_disjoint(ps: u32, p1: u32, p2: u32)
    requires
        ps >= 1,
        p1 >= 1,
        p2 >= 1,
        p1 != p2,
    ensures
        page_end(ps, p1) <= page_start(ps, p2) || page_end(ps, p2) <= page_start(ps, p1),
{
    if p1 < p2 {
        assert(ps * (p1 - 1) + ps <= ps * (p2 - 1)) by (nonlinear_arith)
            requires
                p1 < p2,
                p1 >= 1,
                ps >= 1,
        ;
    } else {
        assert(ps * (p2 - 1) + ps <= ps * (p1 - 1)) by (nonlinear_arith)
            requires
                p2 < p1,
                p2 >= 1,
                ps >= 1,
        ;
    }
}

/// A page's start never lies before the end of the header.
pub proof fn lemma_page_start_after_header(ps: u32, p: u32)
    requires
        p >= 1,
    ensures
        page_start(ps, p) >= HEADER_SIZE,
        page_end(ps, p) >= page_start(ps, p),
{
    assert(ps * (p - 1) >= 0) by (nonlinear_arith)
        requires
            p >= 1,
    ;
}

/// Two images that agree on a page's bytes store the same next-pointer
/// there.
pub proof fn lemma_next_of_same(f1: Seq<u8>, f2: Seq<u8>, ps: u32, p: u32)
    requires
        p >= 1,
        ps >= 4,
        page_start(ps, p) + 4 <= f1.len(),
        page_start(ps, p) + 4 <= f2.len(),
        forall|i: int|
            page_start(ps, p) <= i < page_start(ps, p) + 4 ==> f1[i] == f2[i],
    ensures
        next_of(f1, ps, p) == next_of(f2, ps, p),
{
    let s = page_start(ps, p);
    assert_seqs_equal!(f1.subrange(s, s + 4) == f2.subrange(s, s + 4));
}

/// Writing a page that is not on the free list keeps the store well
/// formed: the header bytes and every free page's linkage lie outside
/// the written range.
pub proof fn lemma_write_tx_wf(m: StoreModel, p: u32, b: Seq<u8>)
    requires
        m_wf(m),
        1 <= p <= m.total_pages,
        b.len() == m.page_size,
        !m.free.contains(p),
    ensures
        m_wf(write_tx(m, p, b)),
        write_tx(m, p, b).file.len() == (if page_end(m.page_size, p) <= m.file.len() {
            m.file.len() as int
        } else {
            page_end(m.page_size, p)
        }),
        m_exact_len(m) ==> m_exact_len(write_tx(m, p, b)),
        page_bytes(write_tx(m, p, b).file, m.page_size, p) == b,
{
    let ps = m.page_size;
    let start = page_start(ps, p);
    let end = page_end(ps, p);
    lemma_page_start_after_header(ps, p);
    let padded = pad_to(m.file, end);
    lemma_pad_to_props(m.file, end);
    let f2 = splice(padded, start, b);
    lemma_splice_props(padded, start, b);
    let m2 = write_tx(m, p, b);
    assert(m2.file == f2);
    assert_seqs_equal!(f2.subrange(0, HEADER_SIZE as int) == m.file.subrange(0, HEADER_SIZE as int), i => {
        assert(f2[i] == padded[i]);
        assert(padded[i] == m.file[i]);
    });
    assert(header_of(m2) == header_of(m));
    assert forall|i: int| 0 <= i < m2.free.len() implies #[trigger] free_entry_ok(m2, i) by {
        assert(free_entry_ok(m, i));
        let e = m.free[i];
        assert(e != p);
        lemma_pages_disjoint(ps, e, p);
        assert forall|j: int|
            page_start(ps, e) <= j < page_start(ps, e) + 4 implies m.file[j] == f2[j] by {
            lemma_page_start_after_header(ps, e);
            assert(j < m.file.len());
            assert(padded[j] == m.file[j]);
        }
        lemma_next_of_same(m.file, f2, ps, e);
    }
    if m_exact_len(m) {
        assert(ps * p <= ps * m.total_pages) by (nonlinear_arith)
            requires
                p <= m.total_pages,
                ps >= 0,
        ;
        assert(ps * (p - 1) + ps == ps * p) by (nonlinear_arith);
    }
    assert_seqs_equal!(page_bytes(f2, ps, p) == b, i => {
        assert(f2[start + i] == b[i]);
    });
}

/// Popping the free-list head keeps the store well formed and touches
/// nothing but the header bytes; in particular the popped page's content
/// is left as it stands.
pub proof fn lemma_alloc_pop_wf(m: StoreModel)
    requires
        m_wf(m),
        m.free.len() > 0,
    ensures
        m_wf(alloc_tx(m)),
        alloc_tx(m).file.len() == m.file.len(),
        m_exact_len(m) ==> m_exact_len(alloc_tx(m)),
        forall|j: int|
            HEADER_SIZE <= j < m.file.len() ==> #[trigger] alloc_tx(m).file[j] == m.file[j],
{
    let m1 = StoreModel {
        page_size: m.page_size,
        total_pages: m.total_pages,
        free: m.free.drop_first(),
        file: m.file,
    };
    let e1 = spec_encode_header(header_of(m1));
    lemma_encode_header_len(header_of(m1));
    let f2 = splice(m.file, 0, e1);
    lemma_splice_props(m.file, 0, e1);
    let m2 = alloc_tx(m);
    assert(m2.free == m1.free && m2.file == f2);
    assert_seqs_equal!(f2.subrange(0, HEADER_SIZE as int) == e1, i => {
        assert(f2[i] == e1[i]);
    });
    assert forall|i: int| 0 <= i < m2.free.len() implies #[trigger] free_entry_ok(m2, i) by {
        assert(free_entry_ok(m, i + 1));
        let e = m.free[i + 1];
        lemma_page_start_after_header(m.page_size, e);
        assert forall|j: int|
            page_start(m.page_size, e) <= j < page_start(m.page_size, e) + 4 implies m.file[j]
            == f2[j] by {
            assert(j >= HEADER_SIZE);
        }
        lemma_next_of_same(m.file, f2, m.page_size, e);
    }
}

/// Growing the file by one page keeps the store well formed, extends the
/// image to exactly the new page's end when its length was exact, and
/// zero-fills the new page.
pub proof fn lemma_alloc_grow_wf(m: StoreModel)
    requires
        m_wf(m),
        m.free.len() == 0,
        m.total_pages < u32::MAX,
    ensures
        m_wf(alloc_tx(m)),
        alloc_tx(m).file.len() == (if page_end(m.page_size, (m.total_pages + 1) as u32)
            <= m.file.len() {
            m.file.len() as int
        } else {
            page_end(m.page_size, (m.total_pages + 1) as u32)
        }),
        m_exact_len(m) ==> m_exact_len(alloc_tx(m)),
        page_bytes(alloc_tx(m).file, m.page_size, (m.total_pages + 1) as u32) == Seq::new(
            m.page_size as nat,
            |i: int| 0u8,
        ),
{
    let ps = m.page_size;
    let p = (m.total_pages + 1) as u32;
    let start = page_start(ps, p);
    let end = page_end(ps, p);
    lemma_page_start_after_header(ps, p);
    let padded = pad_to(m.file, end);
    lemma_pad_to_props(m.file, end);
    let zb = Seq::new(ps as nat, |i: int| 0u8);
    let zeroed = splice(padded, start, zb);
    lemma_splice_props(padded, start, zb);
    let m1 = StoreModel { page_size: ps, total_pages: p, free: m.free, file: m.file };
    let e1 = spec_encode_header(header_of(m1));
    lemma_encode_header_len(header_of(m1));
    let f3 = splice(zeroed, 0, e1);
    lemma_splice_props(zeroed, 0, e1);
    let m2 = alloc_tx(m);
    assert(m2.file == f3);
    assert_seqs_equal!(f3.subrange(0, HEADER_SIZE as int) == e1, i => {
        assert(f3[i] == e1[i]);
    });
    if m_exact_len(m) {
        assert(ps * (p - 1) + ps == ps * p) by (nonlinear_arith);
    }
    assert_seqs_equal!(page_bytes(f3, ps, p) == zb, i => {
        assert(f3[start + i] == zeroed[start + i]);
        assert(zeroed[start + i] == zb[i]);
    });
}

/// Reclaiming a page that is not already free keeps the store well
/// formed: the page joins the front of the chain carrying the old head
/// in its first four bytes, and every other free page is untouched.
pub proof fn lemma_free_tx_wf(m: StoreModel, p: u32)
    requires
        m_wf(m),
        1 <= p <= m.total_pages,
        !m.free.contains(p),
    ensures
        m_wf(free_tx(m, p)),
        free_tx(m, p).file.len() == (if page_end(m.page_size, p) <= m.file.len() {
            m.file.len() as int
        } else {
            page_end(m.page_size, p)
        }),
        m_exact_len(m) ==> m_exact_len(free_tx(m, p)),
{
    let ps = m.page_size;
    let start = page_start(ps, p);
    let end = page_end(ps, p);
    lemma_page_start_after_header(ps, p);
    lemma_auto_spec_u32_to_from_le_bytes();
    let padded = pad_to(m.file, end);
    lemma_pad_to_props(m.file, end);
    let hb = spec_u32_to_le_bytes(header_of(m).free_list_head);
    let linked = splice(padded, start, hb);
    lemma_splice_props(padded, start, hb);
    let m1 = StoreModel {
        page_size: ps,
        total_pages: m.total_pages,
        free: seq![p] + m.free,
        file: linked,
    };
    let e1 = spec_encode_header(header_of(m1));
    lemma_encode_header_len(header_of(m1));
    let f3 = splice(linked, 0, e1);
    lemma_splice_props(linked, 0, e1);
    let m2 = free_tx(m, p);
    assert(m2.free == m1.free && m2.file == f3);
    assert_seqs_equal!(f3.subrange(0, HEADER_SIZE as int) == e1, i => {
        assert(f3[i] == e1[i]);
    });
    if m_exact_len(m) {
        assert(ps * p <= ps * m.total_pages) by (nonlinear_arith)
            requires
                p <= m.total_pages,
                ps >= 0,
        ;
        assert(ps * (p - 1) + ps == ps * p) by (nonlinear_arith);
    }
    assert forall|i: int| 0 <= i < m2.free.len() implies #[trigger] free_entry_ok(m2, i) by {
        if i == 0 {
            assert(m2.free[0] == p);
            assert_seqs_equal!(f3.subrange(start, start + 4) == hb, j => {
                assert(f3[start + j] == linked[start + j]);
                assert(linked[start + j] == hb[j]);
            });
            assert(next_of(f3, ps, p) == header_of(m).free_list_head);
            if m.free.len() > 0 {
                assert(m2.free[1] == m.free[0]);
            }
        } else {
            assert(free_entry_ok(m, i - 1));
            let e = m.free[i - 1];
            assert(m2.free[i] == e);
            assert(e != p);
            lemma_pages_disjoint(ps, e, p);
            lemma_page_start_after_header(ps, e);
            assert forall|j: int|
                page_start(ps, e) <= j < page_start(ps, e) + 4 implies m.file[j] == f3[j] by {
                assert(j < m.file.len());
                assert(padded[j] == m.file[j]);
                assert(linked[j] == padded[j]);
                assert(f3[j] == linked[j]);
            }
            lemma_next_of_same(m.file, f3, ps, e);
            if i + 1 < m2.free.len() {
                assert(m2.free[i + 1] == m.free[i]);
            }
        }
    }
}

/// A freshly bootstrapped store is well formed and its image is exactly
/// one header long: the starting point for the allocation-run law.
pub proof fn lemma_fresh_model_wf(page_size: u32)
    requires
        page_size >= 4,
    ensures
        m_wf(fresh_model(page_size)),
        m_exact_len(fresh_model(page_size)),
        fresh_model(page_size).free.len() == 0,
        fresh_model(page_size).total_pages == 0,
{
    let m = fresh_model(page_size);
    lemma_encode_header_len(header_of(m));
    assert_seqs_equal!(m.file.subrange(0, HEADER_SIZE as int) == spec_encode_header(header_of(m)));
}

/// A chain that reaches `0` visits only real data pages that lie inside
/// the image, and each visited page links to the one after it.
pub proof fn lemma_chain_entries(file: Seq<u8>, h: DbHeader, cur: u32, fuel: nat)
    requires
        chain_from(file, h, cur, fuel) is Some,
    ensures
        ({
            let fl = chain_from(file, h, cur, fuel)->Some_0;
            &&& fl.len() <= fuel + 1
            &&& (cur == 0 ==> fl.len() == 0)
            &&& (cur != 0 ==> fl.len() > 0 && fl[0] == cur)
            &&& forall|i: int|
                0 <= i < fl.len() ==> {
                    &&& 1 <= #[trigger] fl[i] <= h.total_pages
                    &&& page_end(h.page_size, fl[i]) <= file.len()
                    &&& next_of(file, h.page_size, fl[i]) == (if i + 1 < fl.len() {
                        fl[i + 1]
                    } else {
                        0u32
                    })
                }
        }),
    decreases fuel,
{
    if cur != 0 {
        let next = next_of(file, h.page_size, cur);
        lemma_chain_entries(file, h, next, (fuel - 1) as nat);
        let rest = chain_from(file, h, next, (fuel - 1) as nat)->Some_0;
        let fl = chain_from(file, h, cur, fuel)->Some_0;
        assert(fl == seq![cur] + rest);
        assert forall|i: int|
            0 <= i < fl.len() implies {
            &&& 1 <= #[trigger] fl[i] <= h.total_pages
            &&& page_end(h.page_size, fl[i]) <= file.len()
            &&& next_of(file, h.page_size, fl[i]) == (if i + 1 < fl.len() {
                fl[i + 1]
            } else {
                0u32
            })
        } by {
            if i == 0 {
                assert(fl[0] == cur);
                if rest.len() > 0 {
                    assert(next != 0 || rest.len() == 0);
                    assert(fl[1] == rest[0]);
                }
            } else {
                assert(fl[i] == rest[i - 1]);
                if i + 1 < fl.len() {
                    assert(fl[i + 1] == rest[i]);
                }
            }
        }
    }
}

/// Writing a page and then reading it back returns exactly the bytes
/// written.
pub proof fn lemma_write_then_read(m: StoreModel, p: u32, b: Seq<u8>)
    requires
        p >= 1,
        b.len() == m.page_size,
    ensures
        read_result(write_tx(m, p, b), p) == b,
{
    let ps = m.page_size;
    let start = page_start(ps, p);
    let end = page_end(ps, p);
    lemma_page_start_after_header(ps, p);
    let padded = pad_to(m.file, end);
    lemma_pad_to_props(m.file, end);
    lemma_splice_props(padded, start, b);
    let f2 = write_tx(m, p, b).file;
    assert_seqs_equal!(page_bytes(f2, ps, p) == b, i => {
        assert(f2[start + i] == b[i]);
    });
}

/// Reclaiming a page and then allocating returns that same page before
/// any new page number is minted, and leaves the page count and the
/// free stack exactly as they were.
pub proof fn lemma_free_then_allocate(m: StoreModel, p: u32)
    requires
        p >= 1,
    ensures
        alloc_ret(free_tx(m, p)) == p,
        alloc_tx(free_tx(m, p)).total_pages == m.total_pages,
        alloc_tx(free_tx(m, p)).free == m.free,
        alloc_tx(free_tx(m, p)).page_size == m.page_size,
{
    let mf = free_tx(m, p);
    assert(mf.free[0] == p);
    assert(mf.free.drop_first() =~= m.free);
}

/// The state after `n` successive allocations.
pub open spec fn alloc_n(m: StoreModel, n: nat) -> StoreModel
    decreases n,
{
    if n == 0 {
        m
    } else {
        alloc_tx(alloc_n(m, (n - 1) as nat))
    }
}

/// On a store with an empty free list and an image of exact length,
/// `n` allocations mint the consecutive page numbers
/// `total_pages + 1, ..., total_pages + n`, keep the free list empty,
/// and leave an image of exactly a header plus `total_pages + n` pages.
/// On a fresh store the returned numbers are `1, ..., n`.
pub proof fn lemma_allocate_run(m: StoreModel, n: nat)
    requires
        m.free.len() == 0,
        m.total_pages + n <= u32::MAX,
        m_exact_len(m),
    ensures
        alloc_n(m, n).page_size == m.page_size,
        alloc_n(m, n).free.len() == 0,
        alloc_n(m, n).total_pages == m.total_pages + n,
        m_exact_len(alloc_n(m, n)),
        alloc_n(m, n).file.len() == HEADER_SIZE + m.page_size * (m.total_pages + n),
        forall|k: nat| k < n ==> #[trigger] alloc_ret(alloc_n(m, k)) == m.total_pages + k + 1,
    decreases n,
{
    if n > 0 {
        lemma_allocate_run(m, (n - 1) as nat);
        let mp = alloc_n(m, (n - 1) as nat);
        let ps = m.page_size;
        let p = (mp.total_pages + 1) as u32;
        let start = page_start(ps, p);
        let end = page_end(ps, p);
        lemma_page_start_after_header(ps, p);
        assert(ps * (p - 1) + ps == ps * p) by (nonlinear_arith);
        let padded = pad_to(mp.file, end);
        lemma_pad_to_props(mp.file, end);
        let zb = Seq::new(ps as nat, |i: int| 0u8);
        lemma_splice_props(padded, start, zb);
        let zeroed = splice(padded, start, zb);
        let m1 = StoreModel { page_size: ps, total_pages: p, free: mp.free, file: mp.file };
        lemma_encode_header_len(header_of(m1));
        lemma_splice_props(zeroed, 0, spec_encode_header(header_of(m1)));
        assert(alloc_ret(alloc_n(m, (n - 1) as nat)) == m.total_pages + n);
    }
}

/// Append zero bytes until the vector is at least `n` bytes long.
fn pad_vec_to(file: &mut Vec<u8>, n: usize)
    ensures
        final(file)@ == pad_to(old(file)@, n as int),
{
    let ghost orig = file@;
    while file.len() < n
        invariant
            orig.len() <= file@.len(),
            file@.len() <= n || file@.len() == orig.len(),
            forall|j: int| 0 <= j < orig.len() ==> #[trigger] file@[j] == orig[j],
            forall|j: int| orig.len() <= j < file@.len() ==> #[trigger] file@[j] == 0u8,
        decreases n - file.len(),
    {
        file.push(0u8);
    }
    proof {
        lemma_pad_to_props(orig, n as int);
        assert_seqs_equal!(file@ == pad_to(orig, n as int));
    }
}

/// Overwrite the bytes at `start .. start + b.len()` with `b`.
fn splice_bytes(file: &mut Vec<u8>, start: usize, b: &[u8])
    requires
        start + b@.len() <= old(file)@.len(),
    ensures
        final(file)@ == splice(old(file)@, start as int, b@),
{
    let ghost orig = file@;
    let n = file.len();
    let mut i: usize = 0;
    while i < b.len()
        invariant
            i <= b@.len(),
            start + b@.len() <= orig.len(),
            orig.len() == n,
            file@.len() == orig.len(),
            forall|j: int|
                0 <= j < orig.len() && !(start <= j < start + i) ==> #[trigger] file@[j]
                    == orig[j],
            forall|j: int| 0 <= j < i ==> #[trigger] file@[start + j] == b@[j],
        decreases b@.len() - i,
    {
        let v = *vstd::slice::slice_index_get(b, i);
        file[start + i] = v;
        i += 1;
    }
    proof {
        lemma_splice_props(orig, start as int, b@);
        assert_seqs_equal!(file@ == splice(orig, start as int, b@), j => {
            if start <= j < start + b@.len() {
                assert(file@[start + (j - start)] == b@[j - start]);
            }
        });
    }
}

/// Overwrite the bytes at `start .. end` with zeros.
fn zero_range(file: &mut Vec<u8>, start: usize, end: usize)
    requires
        start <= end,
        end <= old(file)@.len(),
    ensures
        final(file)@ == splice(old(file)@, start as int, Seq::new((end - start) as nat, |i: int| 0u8)),
{
    let ghost orig = file@;
    let n = file.len();
    let mut i: usize = start;
    while i < end
        invariant
            start <= i <= end,
            end <= orig.len(),
            orig.len() == n,
            file@.len() == orig.len(),
            forall|j: int|
                0 <= j < orig.len() && !(start <= j < i) ==> #[trigger] file@[j] == orig[j],
            forall|j: int| start <= j < i ==> #[trigger] file@[j] == 0u8,
        decreases end - i,
    {
        file[i] = 0u8;
        i += 1;
    }
    proof {
        let zb = Seq::new((end - start) as nat, |k: int| 0u8);
        lemma_splice_props(orig, start as int, zb);
        assert_seqs_equal!(file@ == splice(orig, start as int, zb));
    }
}

/// Start and end byte offsets of page `p`, refused when the page's last
/// byte cannot be addressed by the platform's file-offset or address
/// type.
fn page_span(page_size: u32, p: u32) -> (r: Result<(usize, usize), DbError>)
    requires
        p >= 1,
    ensures
        r matches Ok(se) ==> se.0 == page_start(page_size, p) && se.1 == page_end(page_size, p)
            && se.1 <= i64::MAX && se.1 <= usize::MAX,
        r is Err <==> (page_end(page_size, p) > i64::MAX || page_end(page_size, p) > usize::MAX),
        r is Err ==> r == Err::<(usize, usize), DbError>(DbError::AddressOverflow),
{
    proof {
        lemma_mul_upper_bound(page_size as int, u32::MAX as int, (p - 1) as int, u32::MAX as int);
    }
    let start64: u64 = (HEADER_SIZE as u64) + (page_size as u64) * ((p - 1) as u64);
    let end64: u64 = start64 + (page_size as u64);
    if end64 > (i64::MAX as u64) {
        return Err(DbError::AddressOverflow);
    }
    if end64 > (usize::MAX as u64) {
        return Err(DbError::AddressOverflow);
    }
    Ok((start64 as usize, end64 as usize))
}

/// A page-addressed store over an in-memory image of a database file.
///
/// The store owns the byte image and the decoded header, and keeps the
/// two consistent: the header is re-persisted into the image's first
/// bytes after every structural change, so the image can be handed to
/// the embedding program for durable storage at any moment.
pub struct PageStore {
    file: Vec<u8>,
    header: DbHeader,
    free_list: Ghost<Seq<u32>>,
}

impl PageStore {
    /// The mathematical state of this store.
    pub closed spec fn model(&self) -> StoreModel {
        StoreModel {
            page_size: self.header.page_size,
            total_pages: self.header.total_pages,
            free: self.free_list@,
            file: self.file@,
        }
    }

    /// The cached header always equals the one the model dictates.
    pub closed spec fn header_cached(&self) -> bool {
        self.header == header_of(self.model())
    }

    /// The store's invariant: a well-formed model whose header the
    /// store caches verbatim.
    pub open spec fn wf(&self) -> bool {
        &&& m_wf(self.model())
        &&& self.header_cached()
    }

    /// Bytes per data page.
    pub open spec fn spec_page_size(&self) -> u32 {
        self.model().page_size
    }

    /// Count of data pages ever allocated.
    pub open spec fn spec_total_pages(&self) -> u32 {
        self.model().total_pages
    }

    /// The reclaimed pages available for reuse, most recently freed
    /// first.
    pub open spec fn free_pages(&self) -> Seq<u32> {
        self.model().free
    }

    /// The byte image of the whole file.
    pub open spec fn file_bytes(&self) -> Seq<u8> {
        self.model().file
    }

    /// Bytes per data page.
    pub fn page_size(&self) -> (r: u32)
        ensures
            r == self.spec_page_size(),
    {
        self.header.page_size
    }

    /// Count of data pages ever allocated.
    pub fn total_pages(&self) -> (r: u32)
        ensures
            r == self.spec_total_pages(),
    {
        self.header.total_pages
    }

    /// The current byte image, for the embedding program to persist.
    pub fn file_image(&self) -> (r: &Vec<u8>)
        ensures
            r@ == self.file_bytes(),
    {
        &self.file
    }

    /// Re-persist the cached header at offset 0 of the image.
    fn persist_header(&mut self)
        requires
            old(self).file@.len() >= HEADER_SIZE,
        ensures
            final(self).file@ == splice(
                old(self).file@,
                0,
                spec_encode_header(old(self).header),
            ),
            final(self).header == old(self).header,
            final(self).free_list@ == old(self).free_list@,
    {
        proof {
            lemma_encode_header_len(self.header);
        }
        let buf = self.header.to_buf();
        splice_bytes(&mut self.file, 0, buf.as_slice());
    }

    /// Adopt a byte image as a page store.
    ///
    /// An image too short to hold a header is treated as a new file and
    /// bootstrapped: a fresh header with the given page size is built
    /// and persisted. Otherwise the existing header rules: a wrong
    /// magic, an unusable page size, or a free list that is not a valid
    /// chain fails with `CorruptHeader`, and the caller-supplied page
    /// size is ignored in favor of the persisted one.
    pub fn open(file: Vec<u8>, default_page_size: u32) -> (r: Result<PageStore, DbError>)
        requires
            default_page_size >= 4,
        ensures
            file@.len() < HEADER_SIZE ==> (r matches Ok(s) && s.wf() && s.model() == fresh_model(
                default_page_size,
            )),
            file@.len() >= HEADER_SIZE && !valid_image(file@) ==> r == Err::<PageStore, DbError>(
                DbError::CorruptHeader,
            ),
            file@.len() >= HEADER_SIZE && valid_image(file@) ==> (r matches Ok(s) && s.wf()
                && s.model() == (StoreModel {
                page_size: spec_decode_header(file@).page_size,
                total_pages: spec_decode_header(file@).total_pages,
                free: spec_chain(file@)->Some_0,
                file: file@,
            })),
    {
        if file.len() < HEADER_SIZE {
            let h = DbHeader::fresh(default_page_size);
            let buf = h.to_buf();
            let s = PageStore { file: buf, header: h, free_list: Ghost(Seq::empty()) };
            proof {
                lemma_encode_header_len(h);
                assert(header_of(s.model()) == h);
                assert_seqs_equal!(s.file@.subrange(0, HEADER_SIZE as int)
                    == spec_encode_header(header_of(s.model())));
                assert(s.model() =~= fresh_model(default_page_size));
            }
            return Ok(s);
        }
        let header = match DbHeader::from(file.as_slice()) {
            Ok(h) => h,
            Err(e) => {
                return Err(e);
            },
        };
        if header.magic != MAGIC_NUMBER {
            return Err(DbError::CorruptHeader);
        }
        if header.page_size < 4 {
            return Err(DbError::CorruptHeader);
        }
        let mut cur: u32 = header.free_list_head;
        let mut last: u32 = 0;
        let mut steps: u32 = 0;
        let ghost mut fl: Seq<u32> = Seq::empty();
        while cur != 0
            invariant
                file@.len() >= HEADER_SIZE,
                header == spec_decode_header(file@),
                header.magic == MAGIC_NUMBER,
                header.page_size >= 4,
                steps <= header.total_pages,
                fl.len() == steps,
                last == (if fl.len() == 0 {
                    0u32
                } else {
                    fl[fl.len() - 1]
                }),
                chain_from(file@, header, header.free_list_head, header.total_pages as nat) == (
                match chain_from(file@, header, cur, (header.total_pages - steps) as nat) {
                    Some(rest) => Some(fl + rest),
                    None => None::<Seq<u32>>,
                }),
            decreases header.total_pages - steps,
        {
            if steps == header.total_pages {
                return Err(DbError::CorruptHeader);
            }
            if cur > header.total_pages {
                return Err(DbError::CorruptHeader);
            }
            proof {
                lemma_mul_upper_bound(
                    header.page_size as int,
                    u32::MAX as int,
                    (cur - 1) as int,
                    u32::MAX as int,
                );
            }
            let start64: u64 = (HEADER_SIZE as u64) + (header.page_size as u64) * ((cur
                - 1) as u64);
            let end64: u64 = start64 + (header.page_size as u64);
            if end64 > (file.len() as u64) {
                return Err(DbError::CorruptHeader);
            }
            let start: usize = start64 as usize;
            let next = u32_from_le_bytes(slice_subrange(file.as_slice(), start, start + 4));
            proof {
                assert(next == next_of(file@, header.page_size, cur));
                let fuel = (header.total_pages - steps) as nat;
                let c = chain_from(file@, header, next, (fuel - 1) as nat);
                if c is Some {
                    let rest = c->Some_0;
                    assert(chain_from(file@, header, cur, fuel) == Some(seq![cur] + rest));
                    assert(fl + (seq![cur] + rest) =~= fl.push(cur) + rest);
                } else {
                    assert(chain_from(file@, header, cur, fuel) is None);
                }
                fl = fl.push(cur);
            }
            last = cur;
            steps = steps + 1;
            cur = next;
        }
        proof {
            assert(chain_from(file@, header, cur, (header.total_pages - steps) as nat)
                == Some(Seq::<u32>::empty()));
            assert(fl + Seq::<u32>::empty() =~= fl);
        }
        if header.free_list_tail != last {
            return Err(DbError::CorruptHeader);
        }
        let s = PageStore { file, header, free_list: Ghost(fl) };
        proof {
            let m = s.model();
            lemma_chain_entries(s.file@, header, header.free_list_head, header.total_pages as nat);
            assert(header_of(m) == header);
            lemma_encode_decode(s.file@);
            assert forall|i: int| 0 <= i < m.free.len() implies #[trigger] free_entry_ok(m, i) by {
                assert(1 <= fl[i] <= header.total_pages);
            }
            assert(valid_image(s.file@));
        }
        Ok(s)
    }

    /// Read page `page_number`: exactly `page_size` bytes at its offset.
    ///
    /// Fails with `ShortRead` when the image ends before the page does,
    /// the sign that the file is shorter than its header claims.
    pub fn read_page(&self, page_number: u32) -> (r: Result<Vec<u8>, DbError>)
        requires
            self.wf(),
        ensures
            r == Err::<Vec<u8>, DbError>(DbError::InvalidPageNumber) <==> (page_number == 0
                || page_number > self.spec_total_pages()),
            r == Err::<Vec<u8>, DbError>(DbError::AddressOverflow) <==> (1 <= page_number
                <= self.spec_total_pages() && (page_end(self.spec_page_size(), page_number)
                > i64::MAX || page_end(self.spec_page_size(), page_number) > usize::MAX)),
            r == Err::<Vec<u8>, DbError>(DbError::ShortRead) <==> (1 <= page_number
                <= self.spec_total_pages() && page_end(self.spec_page_size(), page_number)
                <= i64::MAX && page_end(self.spec_page_size(), page_number) <= usize::MAX
                && page_end(self.spec_page_size(), page_number) > self.file_bytes().len()),
            r is Ok <==> (1 <= page_number <= self.spec_total_pages() && page_end(
                self.spec_page_size(),
                page_number,
            ) <= i64::MAX && page_end(self.spec_page_size(), page_number) <= usize::MAX && page_end(
                self.spec_page_size(),
                page_number,
            ) <= self.file_bytes().len()),
            r is Ok ==> r->Ok_0@ == read_result(self.model(), page_number) && r->Ok_0@.len()
                == self.spec_page_size(),
    {
        if page_number == 0 || page_number > self.header.total_pages {
            return Err(DbError::InvalidPageNumber);
        }
        let (start, end) = match page_span(self.header.page_size, page_number) {
            Ok(se) => se,
            Err(e) => {
                return Err(e);
            },
        };
        if end > self.file.len() {
            return Err(DbError::ShortRead);
        }
        let out = slice_to_vec(slice_subrange(self.file.as_slice(), start, end));
        Ok(out)
    }

    /// Write `buf` over page `page_number`.
    ///
    /// The buffer must be exactly one page long; no partial-page writes.
    /// A page on the free list must not be written: its first bytes
    /// carry the list's linkage.
    pub fn write_page(&mut self, page_number: u32, buf: &[u8]) -> (r: Result<(), DbError>)
        requires
            old(self).wf(),
            !old(self).free_pages().contains(page_number),
        ensures
            final(self).wf(),
            r == Err::<(), DbError>(DbError::InvalidPageNumber) <==> (page_number == 0
                || page_number > old(self).spec_total_pages()),
            r == Err::<(), DbError>(DbError::SizeMismatch) <==> (1 <= page_number <= old(
                self,
            ).spec_total_pages() && buf@.len() != old(self).spec_page_size()),
            r == Err::<(), DbError>(DbError::AddressOverflow) <==> (1 <= page_number <= old(
                self,
            ).spec_total_pages() && buf@.len() == old(self).spec_page_size() && (page_end(
                old(self).spec_page_size(),
                page_number,
            ) > i64::MAX || page_end(old(self).spec_page_size(), page_number) > usize::MAX)),
            r is Ok <==> (1 <= page_number <= old(self).spec_total_pages() && buf@.len() == old(
                self,
            ).spec_page_size() && page_end(old(self).spec_page_size(), page_number) <= i64::MAX
                && page_end(old(self).spec_page_size(), page_number) <= usize::MAX),
            r is Ok ==> final(self).model() == write_tx(old(self).model(), page_number, buf@),
            r is Err ==> final(self).model() == old(self).model(),
    {
        let ghost m0 = self.model();
        if page_number == 0 || page_number > self.header.total_pages {
            return Err(DbError::InvalidPageNumber);
        }
        if buf.len() != self.header.page_size as usize {
            return Err(DbError::SizeMismatch);
        }
        let (start, end) = match page_span(self.header.page_size, page_number) {
            Ok(se) => se,
            Err(e) => {
                return Err(e);
            },
        };
        pad_vec_to(&mut self.file, end);
        splice_bytes(&mut self.file, start, buf);
        proof {
            lemma_write_tx_wf(m0, page_number, buf@);
            assert(self.model() =~= write_tx(m0, page_number, buf@));
        }
        Ok(())
    }

    /// Allocate a page: pop the most recently freed page if one exists,
    /// else grow the file by one zero-filled page.
    ///
    /// A popped page keeps whatever bytes it held (stale linkage in its
    /// first four bytes included); the caller is expected to overwrite
    /// it. The header is re-persisted before returning.
    pub fn allocate_page(&mut self) -> (r: Result<u32, DbError>)
        requires
            old(self).wf(),
        ensures
            final(self).wf(),
            old(self).free_pages().len() > 0 ==> r == Ok::<u32, DbError>(alloc_ret(
                old(self).model(),
            )) && final(self).model() == alloc_tx(old(self).model()),
            old(self).free_pages().len() == 0 ==> ({
                let p = (old(self).spec_total_pages() + 1) as u32;
                if old(self).spec_total_pages() < u32::MAX && page_end(
                    old(self).spec_page_size(),
                    p,
                ) <= i64::MAX && page_end(old(self).spec_page_size(), p) <= usize::MAX {
                    r == Ok::<u32, DbError>(p) && final(self).model() == alloc_tx(
                        old(self).model(),
                    )
                } else {
                    r == Err::<u32, DbError>(DbError::AddressOverflow) && final(self).model()
                        == old(self).model()
                }
            }),
    {
        let ghost m0 = self.model();
        let head = self.header.free_list_head;
        if head != 0 {
            proof {
                assert(free_entry_ok(m0, 0));
                lemma_mul_upper_bound(
                    self.header.page_size as int,
                    u32::MAX as int,
                    (head - 1) as int,
                    u32::MAX as int,
                );
            }
            let start64: u64 = (HEADER_SIZE as u64) + (self.header.page_size as u64) * ((head
                - 1) as u64);
            let flen = self.file.len();
            proof {
                assert(page_end(m0.page_size, head) <= flen);
                assert(start64 + 4 <= flen);
            }
            let start: usize = start64 as usize;
            let next = u32_from_le_bytes(slice_subrange(self.file.as_slice(), start, start + 4));
            proof {
                assert(next == next_of(m0.file, m0.page_size, head));
                if m0.free.len() > 1 {
                    assert(free_entry_ok(m0, 1));
                }
            }
            self.header.free_list_head = next;
            if next == 0 {
                self.header.free_list_tail = 0;
            }
            self.free_list = Ghost(self.free_list@.drop_first());
            self.persist_header();
            proof {
                lemma_alloc_pop_wf(m0);
                assert(self.model() =~= alloc_tx(m0));
            }
            return Ok(head);
        }
        proof {
            if m0.free.len() > 0 {
                assert(free_entry_ok(m0, 0));
            }
        }
        if self.header.total_pages == u32::MAX {
            return Err(DbError::AddressOverflow);
        }
        let p = self.header.total_pages + 1;
        let (start, end) = match page_span(self.header.page_size, p) {
            Ok(se) => se,
            Err(e) => {
                return Err(e);
            },
        };
        pad_vec_to(&mut self.file, end);
        zero_range(&mut self.file, start, end);
        self.header.total_pages = p;
        self.persist_header();
        proof {
            lemma_alloc_grow_wf(m0);
            assert(self.model() =~= alloc_tx(m0));
        }
        Ok(p)
    }

    /// Reclaim page `page_number` for reuse: the old head's number is
    /// written into the page's first four bytes and the page becomes
    /// the new head of the free list (LIFO reuse).
    ///
    /// Freeing a page that is already free is the caller's fault and is
    /// excluded by precondition, not detected at run time.
    pub fn free_page(&mut self, page_number: u32) -> (r: Result<(), DbError>)
        requires
            old(self).wf(),
            !old(self).free_pages().contains(page_number),
        ensures
            final(self).wf(),
            r == Err::<(), DbError>(DbError::InvalidPageNumber) <==> (page_number == 0
                || page_number > old(self).spec_total_pages()),
            r == Err::<(), DbError>(DbError::AddressOverflow) <==> (1 <= page_number <= old(
                self,
            ).spec_total_pages() && (page_end(old(self).spec_page_size(), page_number) > i64::MAX
                || page_end(old(self).spec_page_size(), page_number) > usize::MAX)),
            r is Ok <==> (1 <= page_number <= old(self).spec_total_pages() && page_end(
                old(self).spec_page_size(),
                page_number,
            ) <= i64::MAX && page_end(old(self).spec_page_size(), page_number) <= usize::MAX),
            r is Ok ==> final(self).model() == free_tx(old(self).model(), page_number),
            r is Err ==> final(self).model() == old(self).model(),
    {
        let ghost m0 = self.model();
        if page_number == 0 || page_number > self.header.total_pages {
            return Err(DbError::InvalidPageNumber);
        }
        let (start, end) = match page_span(self.header.page_size, page_number) {
            Ok(se) => se,
            Err(e) => {
                return Err(e);
            },
        };
        let old_head = self.header.free_list_head;
        proof {
            if m0.free.len() > 0 {
                assert(free_entry_ok(m0, 0));
            }
        }
        pad_vec_to(&mut self.file, end);
        let hb = u32_to_le_bytes(old_head);
        splice_bytes(&mut self.file, start, hb.as_slice());
        if self.header.free_list_head == 0 {
            self.header.free_list_tail = page_number;
        }
        self.header.free_list_head = page_number;
        self.free_list = Ghost(seq![page_number] + self.free_list@);
        self.persist_header();
        proof {
            lemma_free_tx_wf(m0, page_number);
            assert(self.model() =~= free_tx(m0, page_number));
        }
        Ok(())
    }
}

} // verus!
