//! Lookups: subtables in order under shared flags, and the builder that
//! gathers the builders of the subtables.

use vstd::prelude::*;
use vstd::std_specs::convert::FromSpec;
use crate::variations::{DeltaSet, VariationStoreBuilder};

verus! {

/// Something that is built into a table, or into part of one, once all that
/// goes into it is known.
///
/// What is built may hold values that vary. Their deltas go to the builder of
/// the variation store, which is shared by everything that is built for one
/// font, so every builder is handed it, whether it has such values or not.
pub trait Builder: Sized {
    /// What the builder builds. The builder of a subtable builds a list of
    /// subtables, as it may have to split what it was given.
    type Output;

    /// Whether building this builder can turn the lists of the store's builder
    /// from `before` into `after` and give `output`.
    ///
    /// A builder that says nothing of what it builds leaves this as it is:
    /// anything can come of building it.
    open spec fn builds(
        self,
        before: Seq<DeltaSet>,
        output: Self::Output,
        after: Seq<DeltaSet>,
    ) -> bool {
        true
    }

    /// Builds the output, handing the deltas of what varies to `var_store`.
    fn build(self, var_store: &mut VariationStoreBuilder) -> (output: Self::Output)
        ensures
            self.builds(old(var_store)@, output, final(var_store)@),
    ;
}

/// The identifier of a set of marks by which a lookup filters marks.
pub type FilterSetId = u16;

/// The flags of a lookup, as the 16 bits that a table holds.
#[derive(Copy, Clone, Debug, PartialEq, Eq, Structural, PartialOrd, Ord, Hash)]
pub struct LookupFlag {
    pub bits: u16,
}

impl LookupFlag {
    /// No flag set.
    pub fn empty() -> (r: Self)
        ensures
            r.bits == 0,
    {
        LookupFlag { bits: 0 }
    }

    /// The flags with the given bits.
    pub fn from_bits_truncate(bits: u16) -> (r: Self)
        ensures
            r.bits == bits,
    {
        LookupFlag { bits }
    }

    /// The bits of the flags.
    pub fn to_bits(self) -> (r: u16)
        ensures
            r == self.bits,
    {
        self.bits
    }
}

impl Default for LookupFlag {
    fn default() -> (r: Self)
        ensures
            r.bits == 0,
    {
        LookupFlag { bits: 0 }
    }
}

/// A lookup: subtables in order, under shared flags.
#[derive(Clone, Debug, PartialEq, Eq)]
pub struct Lookup<T> {
    pub lookup_flag: LookupFlag,
    pub subtables: Vec<T>,
    /// The set of marks to which the lookup applies, where it filters marks.
    pub mark_filtering_set: Option<u16>,
}

impl<T> Lookup<T> {
    /// The lookup with the given flags and subtables, which filters no marks.
    pub fn new(lookup_flag: LookupFlag, subtables: Vec<T>) -> (r: Self)
        ensures
            r.lookup_flag == lookup_flag,
            r.subtables == subtables,
            r.mark_filtering_set is None,
    {
        Lookup { lookup_flag, subtables, mark_filtering_set: None }
    }
}

/// The builder of a lookup: the builders of its subtables, in order, under
/// shared flags.
///
/// While a lookup is written there is always a subtable to write to: a
/// builder is made with one, and a break adds one.
#[derive(Clone, Debug)]
pub struct LookupBuilder<T> {
    pub flags: LookupFlag,
    pub mark_set: Option<FilterSetId>,
    pub subtables: Vec<T>,
}

impl<T> LookupBuilder<T> {
    /// Whether there is a subtable to write to.
    pub open spec fn has_subtable(&self) -> bool {
        self.subtables@.len() >= 1
    }
}

impl<T: Default> LookupBuilder<T> {
    /// A builder with one subtable, as `T` makes it by default.
    pub fn new(flags: LookupFlag, mark_set: Option<FilterSetId>) -> (r: Self)
        ensures
            r.flags == flags,
            r.mark_set == mark_set,
            r.subtables@.len() == 1,
            call_ensures(T::default, (), r.subtables@[0]),
    {
        let mut subtables: Vec<T> = Vec::new();
        subtables.push(T::default());
        LookupBuilder { flags, mark_set, subtables }
    }

    /// A builder with the given subtables; given none, it starts with one
    /// subtable, as `T` makes it by default.
    pub fn new_with_lookups(
        flags: LookupFlag,
        mark_set: Option<FilterSetId>,
        subtables: Vec<T>,
    ) -> (r: Self)
        ensures
            r.flags == flags,
            r.mark_set == mark_set,
            r.has_subtable(),
            subtables@.len() >= 1 ==> r.subtables == subtables,
            subtables@.len() == 0 ==> r.subtables@.len() == 1 && call_ensures(
                T::default,
                (),
                r.subtables@[0],
            ),
    {
        let mut subtables = subtables;
        if subtables.len() == 0 {
            subtables.push(T::default());
        }
        LookupBuilder { flags, mark_set, subtables }
    }

    /// The last subtable, to write to; whatever is written to it is written
    /// to the builder's last subtable, and nothing else changes.
    pub fn last_mut(&mut self) -> (r: Option<&mut T>)
        ensures
            final(self).flags == old(self).flags,
            final(self).mark_set == old(self).mark_set,
            old(self).subtables@.len() == 0 ==> r.is_none() && final(self).subtables@
                == old(self).subtables@,
            old(self).has_subtable() ==> r.is_some() && *r.unwrap() == old(self).subtables@.last()
                && final(self).subtables@ == old(self).subtables@.update(
                old(self).subtables@.len() - 1,
                *final(r.unwrap()),
            ),
    {
        self.subtables.as_mut_slice().last_mut()
    }

    /// Ends the last subtable: adds a subtable, as `T` makes it by default,
    /// behind the others.
    pub fn force_subtable_break(&mut self)
        ensures
            final(self).flags == old(self).flags,
            final(self).mark_set == old(self).mark_set,
            final(self).has_subtable(),
            final(self).subtables@.len() == old(self).subtables@.len() + 1,
            final(self).subtables@.drop_last() == old(self).subtables@,
            call_ensures(T::default, (), final(self).subtables@.last()),
    {
        self.subtables.push(T::default());
        assert(self.subtables@.drop_last() =~= old(self).subtables@);
    }

    /// The subtables, in order.
    pub fn iter_subtables(&self) -> (r: &[T])
        ensures
            r@ == self.subtables@,
    {
        self.subtables.as_slice()
    }
}

impl<U> LookupBuilder<U> {
    /// The same builder with each subtable turned into a `T`, in order.
    pub fn convert<T: From<U>>(self) -> (r: LookupBuilder<T>)
        ensures
            r.flags == self.flags,
            r.mark_set == self.mark_set,
            r.subtables@.len() == self.subtables@.len(),
            forall|i: int|
                0 <= i < r.subtables@.len() ==> call_ensures(
                    T::from,
                    (self.subtables@[i],),
                    #[trigger] r.subtables@[i],
                ),
            T::obeys_from_spec() ==> forall|i: int|
                0 <= i < r.subtables@.len() ==> #[trigger] r.subtables@[i] == T::from_spec(
                    self.subtables@[i],
                ),
    {
        let LookupBuilder { flags, mark_set, subtables } = self;
        let ghost all = subtables@;
        let mut rest: Vec<U> = subtables;
        let n: usize = rest.len();
        let mut out: Vec<T> = Vec::new();
        let mut i: usize = 0;
        assert(all.skip(0) =~= all);
        while i < n
            invariant
                i <= n,
                n == all.len(),
                rest@ == all.skip(i as int),
                out@.len() == i,
                forall|j: int| 0 <= j < i ==> call_ensures(T::from, (all[j],), #[trigger] out@[j]),
                T::obeys_from_spec() ==> forall|j: int|
                    0 <= j < i ==> #[trigger] out@[j] == T::from_spec(all[j]),
            decreases n - i,
        {
            let item: U = rest.remove(0);
            assert(rest@ =~= all.skip(i + 1));
            out.push(T::from(item));
            i += 1;
        }
        LookupBuilder { flags, mark_set, subtables: out }
    }
}

/// The outputs of subtable builders, one behind the other.
pub open spec fn flattened<U>(outputs: Seq<Vec<U>>) -> Seq<U>
    decreases outputs.len(),
{
    if outputs.len() == 0 {
        Seq::empty()
    } else {
        flattened(outputs.drop_last()) + outputs.last()@
    }
}

/// Whether `outputs` and `stores` can come of building the builders in order:
/// builder `i` turns the lists `stores[i]` into `stores[i + 1]` and gives
/// `outputs[i]`.
pub open spec fn is_build_trace<U, T: Builder<Output = Vec<U>>>(
    builders: Seq<T>,
    stores: Seq<Seq<DeltaSet>>,
    outputs: Seq<Vec<U>>,
) -> bool {
    &&& outputs.len() == builders.len()
    &&& stores.len() == builders.len() + 1
    &&& forall|i: int|
        0 <= i < builders.len() ==> (#[trigger] builders[i]).builds(
            stores[i],
            outputs[i],
            stores[i + 1],
        )
}

impl<U, T> Builder for LookupBuilder<T> where T: Builder<Output = Vec<U>>, U: Default {
    type Output = Lookup<U>;

    /// The lookup holds the subtables that the builders give, in the order of
    /// the builders, under the builder's flags and mark set; each builder
    /// finds in the store what the builders before it left there.
    open spec fn builds(
        self,
        before: Seq<DeltaSet>,
        output: Lookup<U>,
        after: Seq<DeltaSet>,
    ) -> bool {
        &&& output.lookup_flag == self.flags
        &&& output.mark_filtering_set == self.mark_set
        &&& exists|stores: Seq<Seq<DeltaSet>>, outputs: Seq<Vec<U>>|
            #[trigger] is_build_trace(self.subtables@, stores, outputs) && stores[0] == before
                && stores.last() == after && output.subtables@ == flattened(outputs)
    }

    fn build(self, var_store: &mut VariationStoreBuilder) -> (out: Lookup<U>) {
        let LookupBuilder { flags, mark_set, subtables } = self;
        let ghost all = subtables@;
        let ghost mut stores: Seq<Seq<DeltaSet>> = seq![var_store@];
        let ghost mut outputs: Seq<Vec<U>> = Seq::empty();
        let mut rest: Vec<T> = subtables;
        let n: usize = rest.len();
        let mut built: Vec<U> = Vec::new();
        let mut i: usize = 0;
        proof {
            assert(all.skip(0) =~= all);
            assert(all.take(0) =~= Seq::<T>::empty());
            assert(built@ =~= flattened(outputs));
        }
        while i < n
            invariant
                i <= n,
                n == all.len(),
                rest@ == all.skip(i as int),
                is_build_trace(all.take(i as int), stores, outputs),
                stores[0] == old(var_store)@,
                stores.last() == var_store@,
                built@ == flattened(outputs),
            decreases n - i,
        {
            let b: T = rest.remove(0);
            assert(rest@ =~= all.skip(i + 1));
            let ghost before = var_store@;
            let ghost done = all.take(i as int);
            let ghost old_stores = stores;
            let ghost old_outputs = outputs;
            let mut part: Vec<U> = b.build(var_store);
            proof {
                stores = stores.push(var_store@);
                outputs = outputs.push(part);
                let now = all.take(i + 1);
                assert(now.drop_last() =~= done);
                assert forall|j: int| 0 <= j < now.len() implies (#[trigger] now[j]).builds(
                    stores[j],
                    outputs[j],
                    stores[j + 1],
                ) by {
                    if j < i {
                        assert(done[j] == now[j]);
                        assert(done[j].builds(old_stores[j], old_outputs[j], old_stores[j + 1]));
                    } else {
                        assert(now[j] == b);
                    }
                }
                assert(outputs.drop_last() =~= old_outputs);
            }
            built.append(&mut part);
            i += 1;
        }
        proof {
            assert(all.take(n as int) =~= all);
        }
        let mut out = Lookup::new(flags, built);
        out.mark_filtering_set = mark_set;
        out
    }
}

} // verus!
