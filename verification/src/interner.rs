//! Deduplicating string interner.
//!
//! An [`Interner`] is a growing table of distinct strings. [`intern`] hands
//! out a [`ThinStr`] handle for a piece of text: the handle of an already
//! stored string is returned as is, otherwise the string is appended and a
//! fresh handle returned. Entries are never removed or reordered, so a handle
//! stays valid for the table's whole lifetime, and two handles from the same
//! table compare equal exactly when they denote the same text.
//!
//! The table is explicit state handed in by the caller; a process-wide
//! singleton, where one is wanted, is a thin shell around this type.

use vstd::prelude::*;

verus! {

/// A small identity handle for an interned string: an index into the table
/// that produced it.
#[derive(Debug, Clone, Copy, PartialEq, Eq, Structural, Hash)]
pub struct ThinStr {
    pub id: usize,
}

/// A deduplicating table of interned strings.
pub struct Interner {
    pub entries: Vec<String>,
}

/// `tbl1` preserves `tbl0`: the old entries sit unchanged at their old
/// indices, so every old handle keeps denoting the same text.
pub open spec fn tbl_extends(tbl1: Seq<Seq<char>>, tbl0: Seq<Seq<char>>) -> bool {
    &&& tbl0.len() <= tbl1.len()
    &&& forall|k: int| 0 <= k < tbl0.len() ==> tbl1[k] == tbl0[k]
}

/// Whether the table `tbl` holds the text `w`.
pub open spec fn tbl_contains(tbl: Seq<Seq<char>>, w: Seq<char>) -> bool {
    exists|j: int| 0 <= j < tbl.len() && tbl[j] == w
}

/// No text is stored twice in `tbl`.
pub open spec fn tbl_wf(tbl: Seq<Seq<char>>) -> bool {
    forall|i: int, j: int| 0 <= i < tbl.len() && 0 <= j < tbl.len() && i != j ==> tbl[i] != tbl[j]
}

/// The index of the entry holding `w` (meaningful when the table holds it;
/// in a duplicate-free table it is the one such index).
pub open spec fn tbl_index(tbl: Seq<Seq<char>>, w: Seq<char>) -> int {
    choose|j: int| 0 <= j < tbl.len() && tbl[j] == w
}

/// The table after interning `w`: unchanged when it holds `w`, extended by
/// `w` otherwise.
pub open spec fn tbl_after(tbl: Seq<Seq<char>>, w: Seq<char>) -> Seq<Seq<char>> {
    if tbl_contains(tbl, w) {
        tbl
    } else {
        tbl.push(w)
    }
}

/// The handle interning `w` hands out: the entry holding `w`, or the fresh
/// entry appended for it.
pub open spec fn handle_for(tbl: Seq<Seq<char>>, w: Seq<char>) -> ThinStr {
    if tbl_contains(tbl, w) {
        ThinStr { id: tbl_index(tbl, w) as usize }
    } else {
        ThinStr { id: tbl.len() as usize }
    }
}

/// What one interning step does to a table: the handle denotes an entry
/// holding `w`, and the table is unchanged when it already held `w`,
/// extended by exactly `w` otherwise.
pub open spec fn intern_post(
    tbl0: Seq<Seq<char>>,
    tbl1: Seq<Seq<char>>,
    h: ThinStr,
    w: Seq<char>,
) -> bool {
    &&& h.id < tbl1.len()
    &&& tbl1[h.id as int] == w
    &&& if tbl_contains(tbl0, w) {
        tbl1 == tbl0
    } else {
        tbl1 == tbl0.push(w) && h.id == tbl0.len()
    }
}

impl Interner {
    /// The stored texts, in insertion order.
    pub open spec fn view(&self) -> Seq<Seq<char>> {
        self.entries@.map(|i: int, s: String| s@)
    }

    /// Well-formed: no text is stored twice.
    pub open spec fn wf(&self) -> bool {
        tbl_wf(self@)
    }

    /// An empty table.
    pub fn new() -> (r: Self)
        ensures
            r@ == Seq::<Seq<char>>::empty(),
            r.wf(),
    {
        let r = Interner { entries: Vec::new() };
        proof {
            assert(r@ =~= Seq::<Seq<char>>::empty());
        }
        r
    }
}

/// Interns `value`: returns the handle of the entry holding `value`'s text,
/// appending a new entry exactly when the text was not stored yet.
pub fn intern(it: &mut Interner, value: &str) -> (h: ThinStr)
    requires
        old(it).wf(),
    ensures
        final(it).wf(),
        intern_post(old(it)@, final(it)@, h, value@),
        tbl_extends(final(it)@, old(it)@),
{
    let owned: String = value.to_owned();
    let n = it.entries.len();
    let mut j: usize = 0;
    while j < n
        invariant
            *it == *old(it),
            old(it).wf(),
            n == it.entries.len(),
            j <= n,
            owned@ == value@,
            forall|k: int| 0 <= k < j ==> it@[k] != value@,
        decreases n - j,
    {
        if it.entries[j].eq(&owned) {
            return ThinStr { id: j };
        }
        j += 1;
    }
    let ghost pre = it@;
    it.entries.push(owned);
    proof {
        assert(it@ =~= pre.push(value@));
        assert(!tbl_contains(pre, value@));
    }
    ThinStr { id: n }
}

impl ThinStr {
    /// The text this handle stands for, read back from the table that
    /// produced it.
    pub fn to_str<'a>(self, it: &'a Interner) -> (r: &'a str)
        requires
            self.id < it@.len(),
        ensures
            r@ == it@[self.id as int],
    {
        it.entries[self.id].as_str()
    }
}

/// Interner identity: in a well-formed table, two interned texts receive the
/// same handle exactly when the texts are equal. Follows from the intern
/// contract: equal texts hit the same entry, and distinct texts sit at
/// distinct indices because no text is stored twice.
pub proof fn lemma_intern_identity(
    tbl0: Seq<Seq<char>>,
    tbl1: Seq<Seq<char>>,
    tbl2: Seq<Seq<char>>,
    a: Seq<char>,
    b: Seq<char>,
    ha: ThinStr,
    hb: ThinStr,
)
    requires
        // no text is stored twice in the final table
        forall|i: int, j: int|
            0 <= i < tbl2.len() && 0 <= j < tbl2.len() && i != j ==> tbl2[i] != tbl2[j],
        // `a` was interned into `tbl0`, yielding `tbl1` and the handle `ha`
        intern_post(tbl0, tbl1, ha, a),
        // `b` was then interned into `tbl1`, yielding `tbl2` and `hb`
        intern_post(tbl1, tbl2, hb, b),
    ensures
        ha == hb <==> a == b,
{
    assert(tbl2[ha.id as int] == a);
}

} // verus!
