//! Reference-counted string interning pool.
//!
//! Repeated text (target names, field names, file paths) is deduplicated
//! behind handles: the pool assigns one canonical identifier per distinct
//! text and counts how many holders reference it.  A sweep pass removes
//! every entry whose count has dropped to zero.

use vstd::prelude::*;

verus! {

/// One pooled string: its canonical identifier, its text, and how many
/// holders currently reference it.
pub struct StrEntry {
    pub id: u64,
    pub text: String,
    pub refs: u64,
}

/// A handle to a pooled string: the canonical identifier the pool assigned
/// to the text, together with the text itself.  Two handles to equal text
/// carry the same identifier.
pub struct InternedStr {
    pub id: u64,
    pub text: String,
}

impl InternedStr {
    /// Makes an independent handle to the same pooled string.  The caller
    /// must pair it with `Strings::acquire` so the count stays right.
    pub fn duplicate(&self) -> (r: InternedStr)
        ensures
            r.id == self.id,
            r.text@ == self.text@,
    {
        InternedStr { id: self.id, text: self.text.clone() }
    }
}

/// The mathematical image of one pool entry.
pub struct PoolEntry {
    pub id: u64,
    pub text: Seq<char>,
    pub refs: u64,
}

/// The deduplicating, reference-counted pool itself.
pub struct Strings {
    entries: Vec<StrEntry>,
    next_id: u64,
}

/// Whether some entry of `p` holds the text `t`.
pub open spec fn view_has_text(p: Seq<PoolEntry>, t: Seq<char>) -> bool {
    exists|i: int| 0 <= i < p.len() && p[i].text == t
}

/// The index of the entry holding text `t` (meaningful when texts are
/// distinct and `view_has_text` holds).
pub open spec fn text_index(p: Seq<PoolEntry>, t: Seq<char>) -> int {
    choose|i: int| 0 <= i < p.len() && p[i].text == t
}

/// Whether some entry of `p` carries the identifier `id`.
pub open spec fn view_has_id(p: Seq<PoolEntry>, id: u64) -> bool {
    exists|i: int| 0 <= i < p.len() && p[i].id == id
}

/// The index of the entry carrying identifier `id`.
pub open spec fn id_index(p: Seq<PoolEntry>, id: u64) -> int {
    choose|i: int| 0 <= i < p.len() && p[i].id == id
}

/// One more holder of the entry; the count saturates rather than wraps.
pub open spec fn bump_refs(e: PoolEntry) -> PoolEntry {
    PoolEntry { refs: if e.refs == u64::MAX { e.refs } else { (e.refs + 1) as u64 }, ..e }
}

/// One holder of the entry fewer; never goes below zero.
pub open spec fn drop_refs(e: PoolEntry) -> PoolEntry {
    PoolEntry { refs: if e.refs == 0 { e.refs } else { (e.refs - 1) as u64 }, ..e }
}

/// What interning text `t` does to the pool: count the existing entry once
/// more, or append a fresh entry with one holder.  When the identifier space
/// is exhausted the pool is left unchanged.
pub open spec fn intern_model(p: Seq<PoolEntry>, t: Seq<char>, fresh: u64) -> Seq<PoolEntry> {
    if view_has_text(p, t) {
        p.update(text_index(p, t), bump_refs(p[text_index(p, t)]))
    } else if fresh < u64::MAX {
        p.push(PoolEntry { id: fresh, text: t, refs: 1 })
    } else {
        p
    }
}

/// What acquiring identifier `id` does to the pool.
pub open spec fn acquire_model(p: Seq<PoolEntry>, id: u64) -> Seq<PoolEntry> {
    if view_has_id(p, id) {
        p.update(id_index(p, id), bump_refs(p[id_index(p, id)]))
    } else {
        p
    }
}

/// What releasing identifier `id` does to the pool.
pub open spec fn release_model(p: Seq<PoolEntry>, id: u64) -> Seq<PoolEntry> {
    if view_has_id(p, id) {
        p.update(id_index(p, id), drop_refs(p[id_index(p, id)]))
    } else {
        p
    }
}

/// What a sweep does: only entries that still have holders survive.
pub open spec fn sweep_model(p: Seq<PoolEntry>) -> Seq<PoolEntry> {
    p.filter(|e: PoolEntry| e.refs > 0)
}

/// `p1` carries every entry of `p0`, with its identifier and text unchanged
/// (only counts may differ), possibly followed by new entries.
pub open spec fn pool_extends(p0: Seq<PoolEntry>, p1: Seq<PoolEntry>) -> bool {
    &&& p1.len() >= p0.len()
    &&& forall|i: int| 0 <= i < p0.len() ==> p1[i].id == p0[i].id && p1[i].text == p0[i].text
}

pub proof fn lemma_pool_extends_refl(p: Seq<PoolEntry>)
    ensures
        pool_extends(p, p),
{
}

pub proof fn lemma_pool_extends_trans(a: Seq<PoolEntry>, b: Seq<PoolEntry>, c: Seq<PoolEntry>)
    requires
        pool_extends(a, b),
        pool_extends(b, c),
    ensures
        pool_extends(a, c),
{
}


/// The pools hold the same entries; only holder counts may have decreased.
pub open spec fn pool_releases_only(p0: Seq<PoolEntry>, p1: Seq<PoolEntry>) -> bool {
    &&& p1.len() == p0.len()
    &&& forall|i: int|
        0 <= i < p0.len() ==> p1[i].id == p0[i].id && p1[i].text == p0[i].text && p1[i].refs
            <= p0[i].refs
}

pub proof fn lemma_pool_releases_only_trans(
    a: Seq<PoolEntry>,
    b: Seq<PoolEntry>,
    c: Seq<PoolEntry>,
)
    requires
        pool_releases_only(a, b),
        pool_releases_only(b, c),
    ensures
        pool_releases_only(a, c),
{
}

/// Identifiers are pairwise distinct and texts are pairwise distinct: each
/// text has exactly one canonical entry.
pub open spec fn pool_wf(p: Seq<PoolEntry>) -> bool {
    &&& forall|i: int, j: int|
        0 <= i < p.len() && 0 <= j < p.len() && i != j ==> p[i].id != p[j].id
    &&& forall|i: int, j: int|
        0 <= i < p.len() && 0 <= j < p.len() && i != j ==> p[i].text != p[j].text
}

/// Filtering a canonical pool keeps it canonical, and every surviving entry
/// comes from the original pool.
proof fn lemma_filter_keeps_wf(s: Seq<PoolEntry>, pred: spec_fn(PoolEntry) -> bool)
    requires
        pool_wf(s),
    ensures
        pool_wf(s.filter(pred)),
        forall|i: int| 0 <= i < s.filter(pred).len() ==> s.contains(#[trigger] s.filter(pred)[i]),
    decreases s.len(),
{
    reveal(Seq::filter);
    if s.len() > 0 {
        let d = s.drop_last();
        assert(pool_wf(d));
        lemma_filter_keeps_wf(d, pred);
        let sub = d.filter(pred);
        let out = s.filter(pred);
        assert forall|i: int| 0 <= i < out.len() implies s.contains(out[i]) by {
            if i < sub.len() {
                assert(d.contains(sub[i]));
                let j = choose|j: int| 0 <= j < d.len() && d[j] == sub[i];
                assert(s[j] == out[i]);
            } else {
                assert(out[i] == s.last());
                assert(s[s.len() - 1] == s.last());
            }
        }
        if pred(s.last()) {
            assert forall|a: int, b: int|
                0 <= a < out.len() && 0 <= b < out.len() && a != b
                implies out[a].id != out[b].id && out[a].text != out[b].text by {
                if a < sub.len() && b < sub.len() {
                    assert(out[a] == sub[a] && out[b] == sub[b]);
                } else {
                    let k = if a < sub.len() { a } else { b };
                    assert(out[k] == sub[k]);
                    assert(d.contains(sub[k]));
                    let j = choose|j: int| 0 <= j < d.len() && d[j] == sub[k];
                    assert(s[j] == sub[k]);
                    assert(s.last() == s[s.len() - 1]);
                    assert(j != s.len() - 1);
                }
            }
        }
    }
}

/// After the sole holder of a pooled string releases it and a sweep runs,
/// the string is no longer retrievable from the pool.
pub proof fn lemma_sole_release_then_sweep_removes(p: Seq<PoolEntry>, i: int)
    requires
        pool_wf(p),
        0 <= i < p.len(),
        p[i].refs == 1,
    ensures
        !view_has_text(sweep_model(release_model(p, p[i].id)), p[i].text),
{
    assert(view_has_id(p, p[i].id));
    let k = id_index(p, p[i].id);
    assert(0 <= k < p.len() && p[k].id == p[i].id);
    assert(k == i);
    let q = p.update(i, drop_refs(p[i]));
    assert(release_model(p, p[i].id) == q);
    assert(pool_wf(q));
    lemma_filter_keeps_wf(q, |e: PoolEntry| e.refs > 0);
    let out = sweep_model(q);
    assert forall|j: int| 0 <= j < out.len() implies out[j].text != p[i].text by {
        q.lemma_filter_pred(|e: PoolEntry| e.refs > 0, j);
        assert(q.contains(out[j]));
        let m = choose|m: int| 0 <= m < q.len() && q[m] == out[j];
        if out[j].text == p[i].text {
            assert(q[i].text == p[i].text);
            assert(m == i);
            assert(out[j].refs == 0);
        }
    }
}

/// A pooled string with two holders survives one release followed by a sweep.
pub proof fn lemma_shared_release_then_sweep_keeps(p: Seq<PoolEntry>, i: int)
    requires
        pool_wf(p),
        0 <= i < p.len(),
        p[i].refs >= 2,
    ensures
        view_has_text(sweep_model(release_model(p, p[i].id)), p[i].text),
{
    assert(view_has_id(p, p[i].id));
    let k = id_index(p, p[i].id);
    assert(k == i);
    let q = p.update(i, drop_refs(p[i]));
    assert(release_model(p, p[i].id) == q);
    assert(q[i].refs >= 1);
    q.lemma_filter_contains(|e: PoolEntry| e.refs > 0, i);
    let out = sweep_model(q);
    assert(out.contains(q[i]));
    let j = choose|j: int| 0 <= j < out.len() && out[j] == q[i];
    assert(out[j].text == p[i].text);
}

impl View for Strings {
    type V = Seq<PoolEntry>;

    closed spec fn view(&self) -> Seq<PoolEntry> {
        Seq::new(
            self.entries@.len(),
            |i: int| PoolEntry {
                id: self.entries@[i].id,
                text: self.entries@[i].text@,
                refs: self.entries@[i].refs,
            },
        )
    }
}

impl Strings {
    /// Every entry's identifier was handed out before `next_id`, and the
    /// entries are canonical.
    pub closed spec fn wf(&self) -> bool {
        &&& pool_wf(self@)
        &&& forall|i: int| 0 <= i < self@.len() ==> self@[i].id < self.next_id
    }

    /// The identifier the next fresh entry would get.
    pub closed spec fn fresh_id(&self) -> u64 {
        self.next_id
    }

    /// An empty pool.
    pub fn new() -> (s: Strings)
        ensures
            s@ =~= Seq::<PoolEntry>::empty(),
            s.wf(),
            s.fresh_id() == 0,
    {
        Strings { entries: Vec::new(), next_id: 0 }
    }

    fn find_text(&self, t: &String) -> (r: Option<usize>)
        requires
            self.wf(),
        ensures
            match r {
                Some(i) => i < self@.len() && self@[i as int].text == t@
                    && i == text_index(self@, t@),
                None => !view_has_text(self@, t@),
            },
    {
        let n = self.entries.len();
        let mut i: usize = 0;
        while i < n
            invariant
                self.wf(),
                n == self@.len(),
                0 <= i <= n,
                forall|j: int| 0 <= j < i ==> self@[j].text != t@,
            decreases n - i,
        {
            if self.entries[i].text == *t {
                proof {
                    assert(self@[i as int].text == t@);
                    assert(view_has_text(self@, t@));
                    let k = text_index(self@, t@);
                    assert(0 <= k < self@.len() && self@[k].text == t@);
                    assert(k == i as int);
                }
                return Some(i);
            }
            i += 1;
        }
        None
    }

    fn find_id(&self, id: u64) -> (r: Option<usize>)
        requires
            self.wf(),
        ensures
            match r {
                Some(i) => i < self@.len() && self@[i as int].id == id
                    && i == id_index(self@, id),
                None => !view_has_id(self@, id),
            },
    {
        let n = self.entries.len();
        let mut i: usize = 0;
        while i < n
            invariant
                self.wf(),
                n == self@.len(),
                0 <= i <= n,
                forall|j: int| 0 <= j < i ==> self@[j].id != id,
            decreases n - i,
        {
            if self.entries[i].id == id {
                proof {
                    assert(self@[i as int].id == id);
                    assert(view_has_id(self@, id));
                    let k = id_index(self@, id);
                    assert(0 <= k < self@.len() && self@[k].id == id);
                    assert(k == i as int);
                }
                return Some(i);
            }
            i += 1;
        }
        None
    }

    /// Returns the canonical handle for `t`: the existing entry's handle with
    /// its count raised, or a fresh entry holding `t` with a count of one.
    pub fn intern(&mut self, t: String) -> (h: InternedStr)
        requires
            old(self).wf(),
        ensures
            final(self).wf(),
            final(self)@ == intern_model(old(self)@, t@, old(self).fresh_id()),
            pool_extends(old(self)@, final(self)@),
            h.text@ == t@,
            old(self).fresh_id() <= final(self).fresh_id(),
            view_has_text(old(self)@, t@) ==> h.id == old(self)@[text_index(old(self)@, t@)].id
                && final(self).fresh_id() == old(self).fresh_id(),
            !view_has_text(old(self)@, t@) && old(self).fresh_id() < u64::MAX
                ==> h.id == old(self).fresh_id(),
    {
        let ghost p0 = self@;
        match self.find_text(&t) {
            Some(i) => {
                let id = self.entries[i].id;
                let r = self.entries[i].refs;
                if r < u64::MAX {
                    self.entries[i].refs = r + 1;
                }
                proof {
                    assert(self@ =~= intern_model(p0, t@, self.next_id));
                }
                InternedStr { id, text: t }
            },
            None => {
                if self.next_id < u64::MAX {
                    let id = self.next_id;
                    let text = t.clone();
                    self.entries.push(StrEntry { id, text, refs: 1 });
                    self.next_id = id + 1;
                    proof {
                        assert(self@ =~= intern_model(p0, t@, id));
                        assert forall|i: int, j: int|
                            0 <= i < self@.len() && 0 <= j < self@.len() && i != j
                            implies self@[i].id != self@[j].id by {};
                    }
                    InternedStr { id, text: t }
                } else {
                    proof {
                        assert(self@ =~= intern_model(p0, t@, self.next_id));
                    }
                    InternedStr { id: u64::MAX, text: t }
                }
            },
        }
    }

    /// Records one more holder of the entry carrying `id`; unknown
    /// identifiers are ignored.
    pub fn acquire(&mut self, id: u64)
        requires
            old(self).wf(),
        ensures
            final(self).wf(),
            final(self)@ == acquire_model(old(self)@, id),
            pool_extends(old(self)@, final(self)@),
            final(self).fresh_id() == old(self).fresh_id(),
    {
        let ghost p0 = self@;
        match self.find_id(id) {
            Some(i) => {
                let r = self.entries[i].refs;
                if r < u64::MAX {
                    self.entries[i].refs = r + 1;
                }
                proof {
                    assert(self@ =~= acquire_model(p0, id));
                }
            },
            None => {
                proof {
                    assert(self@ =~= acquire_model(p0, id));
                }
            },
        }
    }

    /// Records one holder fewer of the entry carrying `id`; unknown
    /// identifiers are ignored.
    pub fn release(&mut self, id: u64)
        requires
            old(self).wf(),
        ensures
            final(self).wf(),
            final(self)@ == release_model(old(self)@, id),
            pool_extends(old(self)@, final(self)@),
            final(self).fresh_id() == old(self).fresh_id(),
    {
        let ghost p0 = self@;
        match self.find_id(id) {
            Some(i) => {
                let r = self.entries[i].refs;
                if r > 0 {
                    self.entries[i].refs = r - 1;
                }
                proof {
                    assert(self@ =~= release_model(p0, id));
                }
            },
            None => {
                proof {
                    assert(self@ =~= release_model(p0, id));
                }
            },
        }
    }

    /// Removes every entry whose count has dropped to zero.
    pub fn sweep(&mut self)
        requires
            old(self).wf(),
        ensures
            final(self).wf(),
            final(self)@ == sweep_model(old(self)@),
            final(self).fresh_id() == old(self).fresh_id(),
    {
        let ghost p0 = self@;
        let n = self.entries.len();
        let mut kept: Vec<StrEntry> = Vec::new();
        let mut i: usize = 0;
        while i < n
            invariant
                n == p0.len(),
                0 <= i <= n,
                self@ == p0,
                self.wf(),
                n == self.entries@.len(),
                Seq::new(kept@.len(), |k: int| PoolEntry {
                    id: kept@[k].id,
                    text: kept@[k].text@,
                    refs: kept@[k].refs,
                }) =~= p0.subrange(0, i as int).filter(|e: PoolEntry| e.refs > 0),
            decreases n - i,
        {
            let ghost pre = p0.subrange(0, i as int);
            let ghost post = p0.subrange(0, (i + 1) as int);
            let e = &self.entries[i];
            if e.refs > 0 {
                let copy = StrEntry { id: e.id, text: e.text.clone(), refs: e.refs };
                kept.push(copy);
            }
            proof {
                reveal(Seq::filter);
                assert(post.drop_last() =~= pre);
                assert(post.last() == p0[i as int]);
            }
            i += 1;
        }
        proof {
            assert(p0.subrange(0, n as int) =~= p0);
        }
        self.entries = kept;
        proof {
            let q = sweep_model(p0);
            assert(self@ =~= q);
            lemma_filter_keeps_wf(p0, |e: PoolEntry| e.refs > 0);
            assert forall|i: int| 0 <= i < self@.len() implies self@[i].id < self.next_id by {
                assert(p0.contains(q[i]));
            }
        }
    }

    /// Whether text `t` is currently retrievable from the pool.
    pub fn contains_text(&self, t: &String) -> (b: bool)
        requires
            self.wf(),
        ensures
            b == view_has_text(self@, t@),
    {
        self.find_text(t).is_some()
    }

    /// The current holder count of text `t`, if the pool has it.
    pub fn refs_of(&self, t: &String) -> (r: Option<u64>)
        requires
            self.wf(),
        ensures
            match r {
                Some(c) => view_has_text(self@, t@) && c == self@[text_index(self@, t@)].refs,
                None => !view_has_text(self@, t@),
            },
    {
        match self.find_text(t) {
            Some(i) => Some(self.entries[i].refs),
            None => None,
        }
    }
}

} // verus!
