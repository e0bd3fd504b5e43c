//! The last few rendered fields, for noise reduction and dropout repair
//! across fields.
//!
//! A fixed-capacity queue: when it is full, a new field takes the place of
//! the oldest. Steps back are counted from the newest field.

use std::collections::VecDeque;

use vstd::prelude::*;

verus! {

broadcast use vstd::std_specs::vecdeque::group_vec_dequeue_axioms;

/// What is known of a rendered field.
#[derive(Debug, Clone, Copy, PartialEq, Eq, Structural)]
pub struct FieldMeta {
    /// Microseconds since the first field.
    pub timestamp_us: u64,
    /// Even (0) or odd (1) output rows.
    pub field_parity: u8,
    /// Share of the lines whose sync tip was found, in thousandths.
    pub sync_quality: u32,
    /// Mean value of the field, in nanoturns.
    pub mean_amplitude: i64,
}

impl Default for FieldMeta {
    fn default() -> (m: Self)
        ensures
            m == (FieldMeta {
                timestamp_us: 0,
                field_parity: 0,
                sync_quality: 1000,
                mean_amplitude: 0,
            }),
    {
        FieldMeta { timestamp_us: 0, field_parity: 0, sync_quality: 1000, mean_amplitude: 0 }
    }
}

/// Recent fields and what is known of each, oldest first.
pub struct FrameHistory<T> {
    y_fields: VecDeque<Vec<T>>,
    meta: VecDeque<FieldMeta>,
    capacity: usize,
    field_size: usize,
}

/// The fields that are left once another has come: the newest, as many as
/// there is room for.
pub open spec fn kept_after<A>(entries: Seq<A>, capacity: int, entry: A) -> Seq<A> {
    let all = entries.push(entry);
    if all.len() <= capacity {
        all
    } else {
        all.skip(all.len() - capacity)
    }
}

impl<T> FrameHistory<T> {
    /// The fields, oldest first, each with what is known of it.
    pub closed spec fn view(&self) -> Seq<(Seq<T>, FieldMeta)> {
        Seq::new(self.y_fields@.len(), |i: int| (self.y_fields@[i]@, self.meta@[i]))
    }

    /// Most fields that are kept, as configured.
    pub closed spec fn limit(&self) -> int {
        self.capacity as int
    }

    /// Values in a field.
    pub closed spec fn size(&self) -> int {
        self.field_size as int
    }

    /// Every field has its description and the configured size, and no more
    /// are held than configured.
    pub closed spec fn wf(&self) -> bool {
        &&& self.y_fields@.len() == self.meta@.len()
        &&& self.y_fields@.len() <= self.capacity
        &&& forall|i: int|
            0 <= i < self.y_fields@.len() ==> (#[trigger] self.y_fields@[i])@.len()
                == self.field_size
    }

    pub proof fn lemma_wf(&self)
        requires
            self.wf(),
        ensures
            0 <= self@.len() <= self.limit(),
            forall|i: int| 0 <= i < self@.len() ==> (#[trigger] self@[i]).0.len() == self.size(),
    {
        assert forall|i: int| 0 <= i < self@.len() implies (#[trigger] self@[i]).0.len()
            == self.size() by {
            assert(self.y_fields@[i]@.len() == self.field_size);
        }
    }

    /// An empty history of up to `capacity` fields of `field_size` values.
    pub fn new(capacity: usize, field_size: usize) -> (h: Self)
        ensures
            h.wf(),
            h@ == Seq::<(Seq<T>, FieldMeta)>::empty(),
            h.limit() == capacity,
            h.size() == field_size,
    {
        FrameHistory { y_fields: VecDeque::new(), meta: VecDeque::new(), capacity, field_size }
    }

    /// Add a field. The oldest is dropped where the history is full.
    pub fn push(&mut self, y_field: Vec<T>, meta: FieldMeta)
        requires
            old(self).wf(),
            y_field.len() == old(self).size(),
        ensures
            final(self).wf(),
            final(self)@ == kept_after(old(self)@, old(self).limit(), (y_field@, meta)),
            final(self).limit() == old(self).limit(),
            final(self).size() == old(self).size(),
    {
        let ghost before = self@;
        if self.capacity == 0 {
            assert(self@ =~= before.push((y_field@, meta)).skip(1));
            return ;
        }
        if self.y_fields.len() >= self.capacity {
            let gone: Option<Vec<T>> = self.y_fields.pop_front();
            let gone_meta: Option<FieldMeta> = self.meta.pop_front();
            assert(self@ =~= before.drop_first());
        }
        let ghost kept = self@;
        self.y_fields.push_back(y_field);
        self.meta.push_back(meta);
        assert(self@ =~= kept.push((y_field@, meta)));
        assert(self@ =~= kept_after(before, self.capacity as int, (y_field@, meta)));
    }

    /// Number of fields held.
    pub fn len(&self) -> (n: usize)
        ensures
            n == self@.len(),
    {
        self.y_fields.len()
    }

    /// Whether no field has come yet.
    pub fn is_empty(&self) -> (b: bool)
        ensures
            b == (self@.len() == 0),
    {
        self.y_fields.len() == 0
    }

    /// The configured capacity.
    pub fn capacity(&self) -> (n: usize)
        ensures
            n == self.limit(),
    {
        self.capacity
    }

    /// The newest field.
    pub fn current_field(&self) -> (f: Option<&[T]>)
        ensures
            match f {
                Some(v) => self@.len() > 0 && v@ == self@.last().0,
                None => self@.len() == 0,
            },
    {
        self.prev_field(0)
    }

    /// The field `n` steps back; the newest for none.
    pub fn prev_field(&self, n: usize) -> (f: Option<&[T]>)
        ensures
            match f {
                Some(v) => n < self@.len() && v@ == self@[self@.len() - 1 - n].0,
                None => n >= self@.len(),
            },
    {
        if n >= self.y_fields.len() {
            return None;
        }
        let idx: usize = self.y_fields.len() - 1 - n;
        Some(self.y_fields[idx].as_slice())
    }

    /// What is known of the newest field.
    pub fn current_meta(&self) -> (m: Option<&FieldMeta>)
        requires
            self.wf(),
        ensures
            match m {
                Some(v) => self@.len() > 0 && *v == self@.last().1,
                None => self@.len() == 0,
            },
    {
        self.prev_meta(0)
    }

    /// What is known of the field `n` steps back.
    pub fn prev_meta(&self, n: usize) -> (m: Option<&FieldMeta>)
        requires
            self.wf(),
        ensures
            match m {
                Some(v) => n < self@.len() && *v == self@[self@.len() - 1 - n].1,
                None => n >= self@.len(),
            },
    {
        if n >= self.meta.len() {
            return None;
        }
        let idx: usize = self.meta.len() - 1 - n;
        Some(&self.meta[idx])
    }

    /// All fields, oldest first.
    pub fn iter_fields(&self) -> (fields: Vec<&[T]>)
        ensures
            fields.len() == self@.len(),
            forall|i: int| 0 <= i < fields.len() ==> (#[trigger] fields[i])@ == self@[i].0,
    {
        let mut fields: Vec<&[T]> = Vec::new();
        let mut i: usize = 0;
        while i < self.y_fields.len()
            invariant
                i <= self.y_fields@.len(),
                fields.len() == i,
                forall|k: int| 0 <= k < i ==> (#[trigger] fields[k])@ == self@[k].0,
            decreases self.y_fields.len() - i,
        {
            fields.push(self.y_fields[i].as_slice());
            i += 1;
        }
        fields
    }
}

/// The history after a list of fields has come.
pub open spec fn after_all<A>(start: Seq<A>, capacity: int, entries: Seq<A>) -> Seq<A>
    decreases entries.len(),
{
    if entries.len() == 0 {
        start
    } else {
        kept_after(
            after_all(start, capacity, entries.drop_last()),
            capacity,
            entries.last(),
        )
    }
}

/// However many fields come, the newest ones are held, as many as there is
/// room for, in the order they came.
pub proof fn law_the_newest_fields_are_held<A>(capacity: int, entries: Seq<A>)
    requires
        0 <= capacity,
    ensures
        after_all(Seq::<A>::empty(), capacity, entries) == (if entries.len() <= capacity {
            entries
        } else {
            entries.skip(entries.len() - capacity)
        }),
    decreases entries.len(),
{
    if entries.len() > 0 {
        let rest = entries.drop_last();
        law_the_newest_fields_are_held(capacity, rest);
        let held = after_all(Seq::<A>::empty(), capacity, rest);
        if entries.len() <= capacity {
            assert(held.push(entries.last()) =~= entries);
        } else {
            let all = held.push(entries.last());
            assert(all.skip(all.len() - capacity) =~= entries.skip(entries.len() - capacity));
        }
    }
}

} // verus!
