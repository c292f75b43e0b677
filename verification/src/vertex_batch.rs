//! The CPU side of a growable vertex buffer: the vertices queued since the
//! last flush, how many of them are drawn already, and how many the GPU buffer
//! holds. Drawing hands out the range to draw; when the queue outgrows the
//! buffer the drawn vertices are retired with it and the buffer grows to the
//! power of two that holds the queue.

use vstd::prelude::*;
use crate::pow2::{next_pow2, checked_next_pow2, lemma_next_pow2};

verus! {

/// Vertices queued for a vertex buffer of `capacity` elements, the first
/// `index` of which are drawn.
pub struct VertexBatch<T> {
    vertices: Vec<T>,
    capacity: u32,
    index: u32,
}

/// What a vertex batch holds.
pub struct VertexBatchView<T> {
    pub vertices: Seq<T>,
    pub capacity: nat,
    pub index: nat,
}

impl<T> View for VertexBatch<T> {
    type V = VertexBatchView<T>;

    closed spec fn view(&self) -> VertexBatchView<T> {
        VertexBatchView { vertices: self.vertices@, capacity: self.capacity as nat, index: self.index as nat }
    }
}

/// What drawing a batch yields: the vertices drawn before, with the capacity
/// of the buffer that replaces theirs, where the batch outgrew its buffer;
/// and the range of the buffer to draw.
pub struct DrawFlush<T> {
    pub retired: Option<(Vec<T>, u32)>,
    pub first: u32,
    pub count: u32,
}

/// The batch `b` outgrows its buffer when it is drawn: more vertices are
/// queued than the buffer holds.
pub open spec fn outgrows<T>(b: VertexBatchView<T>) -> bool {
    b.vertices.len() > b.capacity
}

/// The batch after `b` is drawn: all its vertices drawn; where it outgrew its
/// buffer, only those drawn now remain, for a buffer of the power of two that
/// holds them all.
pub open spec fn batch_after_draw<T>(b: VertexBatchView<T>) -> VertexBatchView<T> {
    if outgrows(b) {
        VertexBatchView {
            vertices: b.vertices.subrange(b.index as int, b.vertices.len() as int),
            capacity: next_pow2(b.vertices.len() as int) as nat,
            index: (b.vertices.len() - b.index) as nat,
        }
    } else {
        VertexBatchView { vertices: b.vertices, capacity: b.capacity, index: b.vertices.len() }
    }
}

/// What drawing `b` retires: where it outgrew its buffer, the vertices drawn
/// before, to be written to the old buffer, and the capacity of the new one.
pub open spec fn retired_by_draw<T>(b: VertexBatchView<T>) -> Option<(Seq<T>, int)> {
    if outgrows(b) {
        Some((b.vertices.subrange(0, b.index as int), next_pow2(b.vertices.len() as int)))
    } else {
        None
    }
}

/// The range of the buffer that drawing `b` draws: its first vertex and how
/// many.
pub open spec fn draw_range<T>(b: VertexBatchView<T>) -> (int, int) {
    if outgrows(b) {
        (0, b.vertices.len() - b.index)
    } else {
        (b.index as int, b.vertices.len() - b.index)
    }
}

/// After a draw every queued vertex counts as drawn: the batch's index is
/// its number of queued vertices, so a draw right after draws nothing, and
/// after pushing `n` more vertices (without outgrowing the buffer) the next
/// draw draws just those, from where the queue ended.
pub proof fn lemma_draw_marks_all_drawn<T>(b: VertexBatchView<T>, pushed: Seq<T>)
    requires
        b.index <= b.vertices.len(),
    ensures
        ({
            let a = batch_after_draw(b);
            let p = VertexBatchView { vertices: a.vertices + pushed, capacity: a.capacity, index: a.index };
            &&& a.index == a.vertices.len()
            &&& draw_range(a).1 == 0
            &&& !outgrows(p) ==> draw_range(p) == (a.vertices.len() as int, pushed.len() as int)
        }),
{
}

/// Drawing loses no vertex and draws just the new ones: the range drawn holds
/// the vertices queued since the last draw, and where the batch outgrew its
/// buffer, the retired vertices followed by those that remain are all that
/// were queued, and the new buffer holds them.
pub proof fn lemma_draw_keeps_vertices<T>(b: VertexBatchView<T>)
    requires
        b.index <= b.vertices.len(),
    ensures
        ({
            let a = batch_after_draw(b);
            let (first, count) = draw_range(b);
            &&& a.vertices.subrange(first, first + count) == b.vertices.subrange(b.index as int, b.vertices.len() as int)
            &&& retired_by_draw(b) matches Some(t) ==> t.0 + a.vertices == b.vertices && a.vertices.len() <= t.1
        }),
{
    lemma_next_pow2(b.vertices.len() as int);
    let a = batch_after_draw(b);
    let (first, count) = draw_range(b);
    assert(a.vertices.subrange(first, first + count) =~= b.vertices.subrange(b.index as int, b.vertices.len() as int));
    if outgrows(b) {
        assert(b.vertices.subrange(0, b.index as int) + a.vertices =~= b.vertices);
    }
}

impl<T> VertexBatch<T> {
    /// The drawn vertices are queued ones.
    pub open spec fn wf(&self) -> bool {
        self@.index <= self@.vertices.len()
    }

    /// An empty batch for a buffer of `capacity` vertices.
    pub fn new(capacity: u32) -> (r: Self)
        ensures
            r@.vertices == Seq::<T>::empty(),
            r@.capacity == capacity,
            r@.index == 0,
            r.wf(),
    {
        VertexBatch { vertices: Vec::new(), capacity, index: 0 }
    }

    /// The number of vertices the buffer holds.
    pub fn capacity(&self) -> (r: u32)
        ensures
            r == self@.capacity,
    {
        self.capacity
    }

    /// The queued vertices.
    pub fn vertices(&self) -> (r: &[T])
        ensures
            r@ == self@.vertices,
    {
        self.vertices.as_slice()
    }

    /// Queues clones of the vertices of `slice`.
    pub fn push(&mut self, slice: &[T])
        where
            T: Clone,
        requires
            old(self).wf(),
        ensures
            final(self).wf(),
            final(self)@.capacity == old(self)@.capacity,
            final(self)@.index == old(self)@.index,
            final(self)@.vertices.len() == old(self)@.vertices.len() + slice@.len(),
            forall|i: int| 0 <= i < old(self)@.vertices.len() ==> #[trigger] final(self)@.vertices[i] == old(self)@.vertices[i],
            forall|i: int| 0 <= i < slice@.len() ==> cloned::<T>(slice@[i], #[trigger] final(self)@.vertices[old(self)@.vertices.len() + i]),
    {
        self.vertices.extend_from_slice(slice);
    }

    /// Hands out the vertices queued since the last draw: the range of the
    /// buffer to draw, `count` vertices from `first`. Where more vertices are
    /// queued than the buffer holds, the drawn ones are retired with it, the
    /// buffer grows to the power of two that holds the queue, and the range
    /// starts at 0.
    pub fn draw_flush(&mut self) -> (r: DrawFlush<T>)
        requires
            old(self).wf(),
            old(self)@.vertices.len() <= u32::MAX,
            old(self)@.vertices.len() > old(self)@.capacity ==> next_pow2(old(self)@.vertices.len() as int) <= u32::MAX,
        ensures
            final(self).wf(),
            final(self)@ == batch_after_draw(old(self)@),
            (match r.retired {
                Some(t) => Some((t.0@, t.1 as int)),
                None => None,
            }) == retired_by_draw(old(self)@),
            r.first == draw_range(old(self)@).0,
            r.count == draw_range(old(self)@).1,
    {
        proof {
            lemma_next_pow2(self@.vertices.len() as int);
        }
        let ghost v = self@.vertices;
        let mut index = self.index;
        let mut retired: Option<(Vec<T>, u32)> = None;
        if self.vertices.len() > self.capacity as usize {
            let capacity = self.vertices.len() as u32;
            let mut drawn = self.vertices.split_off(index as usize);
            std::mem::swap(&mut self.vertices, &mut drawn);
            let grown = checked_next_pow2(capacity).unwrap();
            self.capacity = grown;
            retired = Some((drawn, grown));
            index = 0;
            assert(self@.vertices == v.subrange(self@.index as int, v.len() as int));
        }
        self.index = self.vertices.len() as u32;
        DrawFlush { retired, first: index, count: self.vertices.len() as u32 - index }
    }

    /// Hands out every queued vertex, to be written to the buffer, and starts
    /// over with none drawn.
    pub fn flush(&mut self) -> (r: Vec<T>)
        ensures
            r@ == old(self)@.vertices,
            final(self)@ == (VertexBatchView { vertices: Seq::<T>::empty(), capacity: old(self)@.capacity, index: 0 }),
            final(self).wf(),
    {
        self.index = 0;
        let mut all: Vec<T> = Vec::new();
        std::mem::swap(&mut self.vertices, &mut all);
        all
    }

    /// Drops every queued vertex.
    pub fn clear(&mut self)
        ensures
            final(self)@ == (VertexBatchView { vertices: Seq::<T>::empty(), capacity: old(self)@.capacity, index: 0 }),
            final(self).wf(),
    {
        self.vertices.clear();
        self.index = 0;
    }
}

} // verus!
