//! An ordered sequence held as a list of non-empty buckets, so that removing an
//! element moves at most one bucket's tail.

use vstd::prelude::*;

verus! {

/// The concatenation of a sequence of sequences, in order.
pub open spec fn flatten<T>(cs: Seq<Seq<T>>) -> Seq<T>
    decreases cs.len(),
{
    if cs.len() == 0 {
        Seq::empty()
    } else {
        cs[0] + flatten(cs.drop_first())
    }
}

/// The contents of each bucket.
pub open spec fn bucket_views<T>(cs: Seq<Vec<T>>) -> Seq<Seq<T>> {
    cs.map_values(|c: Vec<T>| c@)
}

/// Concatenation distributes over joining the lists of sequences.
pub proof fn lemma_flatten_concat<T>(a: Seq<Seq<T>>, b: Seq<Seq<T>>)
    ensures
        flatten(a + b) == flatten(a) + flatten(b),
    decreases a.len(),
{
    if a.len() == 0 {
        assert(a + b =~= b);
        assert(flatten(a) + flatten(b) =~= flatten(b));
    } else {
        assert((a + b).drop_first() =~= a.drop_first() + b);
        lemma_flatten_concat(a.drop_first(), b);
        assert(flatten(a + b) =~= flatten(a) + flatten(b));
    }
}

/// One sequence concatenates to itself.
pub proof fn lemma_flatten_single<T>(x: Seq<T>)
    ensures
        flatten(seq![x]) == x,
{
    assert(seq![x].drop_first() =~= Seq::<Seq<T>>::empty());
    assert(flatten(Seq::<Seq<T>>::empty()) == Seq::<T>::empty());
    assert(flatten(seq![x]) =~= x);
}

/// Appending a sequence appends its elements.
pub proof fn lemma_flatten_push<T>(cs: Seq<Seq<T>>, x: Seq<T>)
    ensures
        flatten(cs.push(x)) == flatten(cs) + x,
{
    assert(cs.push(x) =~= cs + seq![x]);
    lemma_flatten_concat(cs, seq![x]);
    lemma_flatten_single(x);
}

/// Splits the concatenation around bucket `c`.
pub proof fn lemma_flatten_split<T>(cs: Seq<Seq<T>>, c: int)
    requires
        0 <= c < cs.len(),
    ensures
        flatten(cs) == flatten(cs.take(c)) + cs[c] + flatten(cs.skip(c + 1)),
        flatten(cs.take(c + 1)) == flatten(cs.take(c)) + cs[c],
{
    assert(cs =~= cs.take(c) + (seq![cs[c]] + cs.skip(c + 1)));
    lemma_flatten_concat(cs.take(c), seq![cs[c]] + cs.skip(c + 1));
    lemma_flatten_concat(seq![cs[c]], cs.skip(c + 1));
    lemma_flatten_single(cs[c]);
    assert(cs.take(c + 1) =~= cs.take(c).push(cs[c]));
    lemma_flatten_push(cs.take(c), cs[c]);
}

/// A sequence split into buckets; the logical sequence is the buckets'
/// concatenation.
pub struct ChunkList<T> {
    chunks: Vec<Vec<T>>,
}

impl<T> View for ChunkList<T> {
    type V = Seq<T>;

    closed spec fn view(&self) -> Seq<T> {
        flatten(self.buckets())
    }
}

impl<T> ChunkList<T> {
    /// The contents of each bucket, in order.
    pub closed spec fn buckets(&self) -> Seq<Seq<T>> {
        bucket_views(self.chunks@)
    }

    /// Every bucket is non-empty and the total length fits in `usize`.
    pub closed spec fn wf(&self) -> bool {
        &&& forall|i: int| 0 <= i < self.buckets().len() ==> #[trigger] self.buckets()[i].len() > 0
        &&& self@.len() <= usize::MAX
    }

    /// Splits `chunk_me` into consecutive buckets of at most `chunk_size` elements.
    pub fn new(chunk_me: Vec<T>, chunk_size: usize) -> (r: Self)
        requires
            chunk_size > 0,
        ensures
            r.wf(),
            r@ == chunk_me@,
            forall|i: int| 0 <= i < r.buckets().len() ==> #[trigger] r.buckets()[i].len() <= chunk_size,
    {
        let ghost all = chunk_me@;
        let n = chunk_me.len();
        let mut rest = chunk_me;
        let mut chunks: Vec<Vec<T>> = Vec::new();
        while rest.len() > 0
            invariant
                flatten(bucket_views(chunks@)) + rest@ == all,
                forall|i: int| 0 <= i < chunks@.len() ==> #[trigger] chunks@[i]@.len() > 0 && chunks@[i]@.len() <= chunk_size,
                chunk_size > 0,
            decreases rest.len(),
        {
            let at = if rest.len() < chunk_size { rest.len() } else { chunk_size };
            let tail = rest.split_off(at);
            proof {
                assert(bucket_views(chunks@.push(rest)) =~= bucket_views(chunks@).push(rest@));
                lemma_flatten_push(bucket_views(chunks@), rest@);
                assert(flatten(bucket_views(chunks@)) + rest@ + tail@ =~= all);
            }
            chunks.push(rest);
            rest = tail;
        }
        assert(flatten(bucket_views(chunks@)) =~= all);
        let r = ChunkList { chunks };
        assert(r@.len() == n);
        assert(forall|i: int| 0 <= i < r.buckets().len() ==> r.buckets()[i] == r.chunks@[i]@);
        r
    }

    /// Finds the bucket holding logical position `index`, and the position
    /// within that bucket.
    fn get_real_index(&self, index: usize) -> (r: (usize, usize))
        requires
            self.wf(),
            index < self@.len(),
        ensures
            r.0 < self.buckets().len(),
            r.1 < self.buckets()[r.0 as int].len(),
            flatten(self.buckets().take(r.0 as int)).len() + r.1 == index,
    {
        let ghost cs = self.buckets();
        let mut rest = index;
        let mut chunk_number: usize = 0;
        while chunk_number < self.chunks.len()
            invariant
                cs == self.buckets(),
                chunk_number <= cs.len(),
                flatten(cs.take(chunk_number as int)).len() + rest == index,
                index < flatten(cs).len(),
            decreases self.chunks.len() - chunk_number,
        {
            proof {
                lemma_flatten_split(cs, chunk_number as int);
            }
            let n = self.chunks[chunk_number].len();
            if n <= rest {
                rest = rest - n;
                chunk_number = chunk_number + 1;
            } else {
                return (chunk_number, rest);
            }
        }
        proof {
            assert(cs.take(cs.len() as int) =~= cs);
        }
        (chunk_number, rest)
    }

    /// Removes the element at `index`, dropping its bucket if that becomes empty.
    pub fn remove(&mut self, index: usize)
        requires
            old(self).wf(),
            index < old(self)@.len(),
        ensures
            final(self).wf(),
            final(self)@ == old(self)@.remove(index as int),
    {
        let (c, o) = self.get_real_index(index);
        let ghost cs = self.buckets();
        let mut chunk = self.chunks.remove(c);
        chunk.remove(o);
        let ghost removed = bucket_views(self.chunks@);
        assert(removed =~= cs.take(c as int) + cs.skip(c as int + 1));
        if chunk.len() > 0 {
            self.chunks.insert(c, chunk);
        }
        proof {
            lemma_flatten_split(cs, c as int);
            lemma_flatten_concat(cs.take(c as int), cs.skip(c as int + 1));
            let news = self.buckets();
            if chunk@.len() > 0 {
                assert(news =~= cs.update(c as int, chunk@));
                assert(news.take(c as int) =~= cs.take(c as int));
                assert(news.skip(c as int + 1) =~= cs.skip(c as int + 1));
                lemma_flatten_split(news, c as int);
            } else {
                assert(news =~= removed);
            }
            assert(self@ =~= old(self)@.remove(index as int));
        }
    }

    /// The number of elements.
    pub fn len(&self) -> (r: usize)
        requires
            self.wf(),
        ensures
            r == self@.len(),
    {
        let ghost cs = self.buckets();
        let mut total: usize = 0;
        let mut i: usize = 0;
        while i < self.chunks.len()
            invariant
                cs == self.buckets(),
                i <= cs.len(),
                total == flatten(cs.take(i as int)).len(),
                flatten(cs).len() <= usize::MAX,
            decreases self.chunks.len() - i,
        {
            proof {
                lemma_flatten_split(cs, i as int);
            }
            total = total + self.chunks[i].len();
            i = i + 1;
        }
        proof {
            assert(cs.take(cs.len() as int) =~= cs);
        }
        total
    }

    /// The element at logical position `index`.
    pub fn index(&self, index: usize) -> (r: &T)
        requires
            self.wf(),
            index < self@.len(),
        ensures
            *r == self@[index as int],
    {
        let (c, o) = self.get_real_index(index);
        proof {
            lemma_flatten_split(self.buckets(), c as int);
        }
        &self.chunks[c][o]
    }

    /// Replaces the element at logical position `index` with `value`.
    pub fn set(&mut self, index: usize, value: T)
        requires
            old(self).wf(),
            index < old(self)@.len(),
        ensures
            final(self).wf(),
            final(self)@ == old(self)@.update(index as int, value),
    {
        let (c, o) = self.get_real_index(index);
        let ghost cs = self.buckets();
        let mut chunk = self.chunks.remove(c);
        chunk.set(o, value);
        self.chunks.insert(c, chunk);
        proof {
            let news = self.buckets();
            assert(news =~= cs.update(c as int, chunk@));
            assert(news.take(c as int) =~= cs.take(c as int));
            assert(news.skip(c as int + 1) =~= cs.skip(c as int + 1));
            lemma_flatten_split(cs, c as int);
            lemma_flatten_split(news, c as int);
            assert(self@ =~= old(self)@.update(index as int, value));
        }
    }

    /// Consumes the list, giving its elements in order.
    pub fn into_vec(self) -> (r: Vec<T>)
        ensures
            r@ == self@,
    {
        let ghost all = self@;
        let mut chunks = self.chunks;
        let mut out: Vec<T> = Vec::new();
        while chunks.len() > 0
            invariant
                out@ + flatten(bucket_views(chunks@)) == all,
            decreases chunks.len(),
        {
            let ghost cs = bucket_views(chunks@);
            let mut chunk = chunks.remove(0);
            proof {
                assert(cs.drop_first() =~= bucket_views(chunks@));
                assert(out@ + chunk@ + flatten(bucket_views(chunks@)) =~= all);
            }
            out.append(&mut chunk);
        }
        assert(flatten(bucket_views(chunks@)) =~= Seq::<T>::empty());
        assert(out@ =~= all);
        out
    }
}

} // verus!
