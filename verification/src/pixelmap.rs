//! A finite map from grid points to pixels, used for views and remembered
//! terrain.

use vstd::prelude::*;
use crate::ipoint::IPoint;
use crate::object::Pixel;
use crate::pointset::view_pt;

verus! {

/// A map from points to pixels, kept as a vector of entries with distinct
/// keys, in insertion order.
#[derive(Clone, Debug)]
pub struct PixelMap {
    pub items: Vec<(IPoint, Pixel)>,
}

impl PixelMap {
    /// No key occurs twice.
    pub open spec fn wf(self) -> bool {
        forall|i: int, j: int|
            0 <= i < j < self.items@.len() ==> view_pt((#[trigger] self.items@[i]).0) != view_pt(
                (#[trigger] self.items@[j]).0,
            )
    }

    /// The pixel stored at coordinates `q`, or `None`.
    pub open spec fn spec_get(self, q: (int, int)) -> Option<Pixel> {
        if exists|i: int| 0 <= i < self.items@.len() && view_pt((#[trigger] self.items@[i]).0) == q {
            Some(
                self.items@[choose|i: int|
                    0 <= i < self.items@.len() && view_pt((#[trigger] self.items@[i]).0) == q].1,
            )
        } else {
            None
        }
    }

    /// The empty map.
    pub fn new() -> (r: PixelMap)
        ensures
            r.wf(),
            forall|q: (int, int)| #[trigger] r.spec_get(q) is None,
            r.items@.len() == 0,
    {
        PixelMap { items: Vec::new() }
    }

    /// How many points the map holds.
    pub fn len(&self) -> (r: usize)
        ensures
            r == self.items@.len(),
    {
        self.items.len()
    }

    /// The entry at position `i` of the insertion order.
    pub fn get_at(&self, i: usize) -> (r: (IPoint, Pixel))
        requires
            i < self.items@.len(),
        ensures
            r == self.items@[i as int],
    {
        self.items[i]
    }

    /// The position of the entry with this key.
    fn find_key(&self, p: &IPoint) -> (r: Option<usize>)
        ensures
            match r {
                None => forall|i: int|
                    0 <= i < self.items@.len() ==> view_pt((#[trigger] self.items@[i]).0)
                        != view_pt(*p),
                Some(i) => i < self.items@.len() && view_pt(self.items@[i as int].0) == view_pt(
                    *p,
                ),
            },
    {
        let mut i: usize = 0;
        while i < self.items.len()
            invariant
                0 <= i <= self.items@.len(),
                forall|j: int|
                    0 <= j < i ==> view_pt((#[trigger] self.items@[j]).0) != view_pt(*p),
            decreases self.items@.len() - i,
        {
            if self.items[i].0.x == p.x && self.items[i].0.y == p.y {
                return Some(i);
            }
            i = i + 1;
        }
        None
    }

    /// The pixel stored at `p`.
    pub fn lookup(&self, p: &IPoint) -> (r: Option<Pixel>)
        requires
            self.wf(),
        ensures
            r == self.spec_get(view_pt(*p)),
    {
        match self.find_key(p) {
            None => {
                proof {
                    assert(self.spec_get(view_pt(*p)) is None);
                }
                None
            },
            Some(i) => {
                proof {
                    lemma_pixelmap_at(*self, i as int);
                }
                Some(self.items[i].1)
            },
        }
    }

    /// Store `pix` at `p`, replacing what was there.
    pub fn set(&mut self, p: IPoint, pix: Pixel)
        requires
            old(self).wf(),
        ensures
            final(self).wf(),
            forall|q: (int, int)| #[trigger]
                final(self).spec_get(q) == if q == view_pt(p) {
                    Some(pix)
                } else {
                    old(self).spec_get(q)
                },
    {
        let found = self.find_key(&p);
        match found {
            Some(i) => {
                self.items[i] = (p, pix);
                proof {
                    let s0 = *old(self);
                    assert forall|q: (int, int)| #[trigger]
                        self.spec_get(q) == if q == view_pt(p) {
                            Some(pix)
                        } else {
                            s0.spec_get(q)
                        } by {
                        lemma_pixelmap_update(s0, *self, i as int, p, pix, q);
                    }
                }
            },
            None => {
                self.items.push((p, pix));
                proof {
                    let s0 = *old(self);
                    let n = s0.items@.len() as int;
                    assert(self.items@[n] == (p, pix));
                    assert forall|q: (int, int)| #[trigger]
                        self.spec_get(q) == if q == view_pt(p) {
                            Some(pix)
                        } else {
                            s0.spec_get(q)
                        } by {
                        lemma_pixelmap_push(s0, *self, p, pix, q);
                    }
                }
            },
        }
    }

    /// Store `pix` at `p` only when nothing is stored there yet.
    pub fn merge_missing(&mut self, p: IPoint, pix: Pixel)
        requires
            old(self).wf(),
        ensures
            final(self).wf(),
            forall|q: (int, int)| #[trigger]
                final(self).spec_get(q) == if q == view_pt(p) && old(self).spec_get(q) is None {
                    Some(pix)
                } else {
                    old(self).spec_get(q)
                },
    {
        let absent = match self.find_key(&p) {
            None => true,
            Some(_) => false,
        };
        proof {
            if !absent {
                assert(old(self).spec_get(view_pt(p)) is Some);
            } else {
                assert(old(self).spec_get(view_pt(p)) is None);
            }
        }
        if absent {
            self.set(p, pix);
        }
    }
}

/// The entry at position `i` is what the map stores at its key.
pub proof fn lemma_pixelmap_at(m: PixelMap, i: int)
    requires
        m.wf(),
        0 <= i < m.items@.len(),
    ensures
        m.spec_get(view_pt(m.items@[i].0)) == Some(m.items@[i].1),
{
    let q = view_pt(m.items@[i].0);
    assert(exists|j: int| 0 <= j < m.items@.len() && view_pt((#[trigger] m.items@[j]).0) == q);
    let j = choose|j: int| 0 <= j < m.items@.len() && view_pt((#[trigger] m.items@[j]).0) == q;
    if j != i {
        assert(view_pt(m.items@[j].0) != view_pt(m.items@[i].0));
    }
}

/// What replacing the entry at `i` does to every lookup.
proof fn lemma_pixelmap_update(m0: PixelMap, m1: PixelMap, i: int, p: IPoint, pix: Pixel, q: (
    int,
    int,
))
    requires
        m0.wf(),
        0 <= i < m0.items@.len(),
        view_pt(m0.items@[i].0) == view_pt(p),
        m1.items@ == m0.items@.update(i, (p, pix)),
        m1.wf(),
    ensures
        m1.spec_get(q) == if q == view_pt(p) {
            Some(pix)
        } else {
            m0.spec_get(q)
        },
{
    if q == view_pt(p) {
        lemma_pixelmap_at(m1, i);
    } else {
        if m0.spec_get(q) is Some {
            let j = choose|j: int|
                0 <= j < m0.items@.len() && view_pt((#[trigger] m0.items@[j]).0) == q;
            assert(j != i);
            assert(m1.items@[j] == m0.items@[j]);
            lemma_pixelmap_at(m0, j);
            lemma_pixelmap_at(m1, j);
        }
        if m1.spec_get(q) is Some {
            let j = choose|j: int|
                0 <= j < m1.items@.len() && view_pt((#[trigger] m1.items@[j]).0) == q;
            assert(j != i);
            assert(m0.items@[j] == m1.items@[j]);
            lemma_pixelmap_at(m0, j);
            lemma_pixelmap_at(m1, j);
        }
    }
}

/// What appending a fresh entry does to every lookup.
proof fn lemma_pixelmap_push(m0: PixelMap, m1: PixelMap, p: IPoint, pix: Pixel, q: (int, int))
    requires
        m0.wf(),
        forall|i: int| 0 <= i < m0.items@.len() ==> view_pt((#[trigger] m0.items@[i]).0) != view_pt(p),
        m1.items@ == m0.items@.push((p, pix)),
    ensures
        m1.wf(),
        m1.spec_get(q) == if q == view_pt(p) {
            Some(pix)
        } else {
            m0.spec_get(q)
        },
{
    let n = m0.items@.len() as int;
    assert(m1.items@[n] == (p, pix));
    assert forall|i: int, j: int|
        0 <= i < j < m1.items@.len() implies view_pt((#[trigger] m1.items@[i]).0) != view_pt(
        (#[trigger] m1.items@[j]).0,
    ) by {
        if j < n {
            assert(m1.items@[i] == m0.items@[i]);
            assert(m1.items@[j] == m0.items@[j]);
        } else {
            assert(m1.items@[i] == m0.items@[i]);
        }
    }
    if q == view_pt(p) {
        lemma_pixelmap_at(m1, n);
    } else {
        if m0.spec_get(q) is Some {
            let j = choose|j: int|
                0 <= j < m0.items@.len() && view_pt((#[trigger] m0.items@[j]).0) == q;
            assert(m1.items@[j] == m0.items@[j]);
            lemma_pixelmap_at(m0, j);
            lemma_pixelmap_at(m1, j);
        }
        if m1.spec_get(q) is Some {
            let j = choose|j: int|
                0 <= j < m1.items@.len() && view_pt((#[trigger] m1.items@[j]).0) == q;
            assert(j != n);
            assert(m0.items@[j] == m1.items@[j]);
            lemma_pixelmap_at(m0, j);
            lemma_pixelmap_at(m1, j);
        }
    }
}

} // verus!
