use vstd::prelude::*;
use crate::entries::{insert_u64_entry, lemma_put_props, lemma_u64_order_total, put};
use crate::value::{sorted_by, u64_entries_model, u64_order, Model, Value};

verus! {

broadcast use vstd::std_specs::vec::group_vec_axioms, vstd::seq_lib::group_seq_properties;

/// Misuse of a `U64ObjectBuilder`.
#[derive(Debug, Clone, Copy, PartialEq, Eq, Structural)]
pub enum BuildError {
    /// `finish` was called on the root object.
    FinishAtRoot,
    /// `value` was called while a nested object was still open.
    UnfinishedChild,
}

/// Assembles nested `U64Object`s in a fluent chain.
///
/// `map` holds the entries of the object being built; `frames` holds, for
/// each open ancestor from the root down, its entries so far and the key
/// under which the open child will be put.
pub struct U64ObjectBuilder {
    map: Vec<(u64, Value)>,
    frames: Vec<(Vec<(u64, Value)>, u64)>,
}

impl U64ObjectBuilder {
    /// The entries of the object being built.
    pub closed spec fn entries(&self) -> Seq<(u64, Model)> {
        u64_entries_model(self.map@)
    }

    /// The open ancestors, root first: their entries and the pending key.
    pub closed spec fn ancestors(&self) -> Seq<(Seq<(u64, Model)>, u64)> {
        Seq::new(
            self.frames@.len(),
            |i: int| (u64_entries_model(self.frames@[i].0@), self.frames@[i].1),
        )
    }

    /// Every entry list is kept in increasing key order.
    pub closed spec fn inv(&self) -> bool {
        &&& sorted_by(self.entries(), u64_order())
        &&& forall|i: int|
            0 <= i < self.ancestors().len() ==> sorted_by(
                #[trigger] self.ancestors()[i].0,
                u64_order(),
            )
    }

    /// A root builder with no entries.
    pub fn new() -> (r: Box<U64ObjectBuilder>)
        ensures
            r.inv(),
            r.entries() == Seq::<(u64, Model)>::empty(),
            r.ancestors() == Seq::<(Seq<(u64, Model)>, u64)>::empty(),
    {
        let b = U64ObjectBuilder { map: Vec::new(), frames: Vec::new() };
        assert(b.entries() =~= Seq::<(u64, Model)>::empty());
        assert(b.ancestors() =~= Seq::<(Seq<(u64, Model)>, u64)>::empty());
        Box::new(b)
    }

    /// Puts `value` under `key` in the object being built, replacing what
    /// was there.
    pub fn set(self, key: u64, value: Value) -> (r: U64ObjectBuilder)
        requires
            self.inv(),
        ensures
            r.inv(),
            r.entries() == put(self.entries(), key, value.model(), u64_order()),
            r.ancestors() == self.ancestors(),
    {
        let U64ObjectBuilder { mut map, frames } = self;
        proof {
            lemma_u64_order_total();
            lemma_put_props(u64_entries_model(map@), key, value.model(), u64_order());
        }
        insert_u64_entry(&mut map, key, value);
        let r = U64ObjectBuilder { map, frames };
        assert(r.ancestors() =~= self.ancestors());
        r
    }

    /// Opens a nested object that `finish` will put under `key`.
    pub fn start_u64_obj(self, key: u64) -> (r: Box<U64ObjectBuilder>)
        requires
            self.inv(),
        ensures
            r.inv(),
            r.entries() == Seq::<(u64, Model)>::empty(),
            r.ancestors() == self.ancestors().push((self.entries(), key)),
    {
        let U64ObjectBuilder { map, mut frames } = self;
        frames.push((map, key));
        let r = U64ObjectBuilder { map: Vec::new(), frames };
        assert(r.entries() =~= Seq::<(u64, Model)>::empty());
        assert(r.ancestors() =~= self.ancestors().push((self.entries(), key)));
        Box::new(r)
    }

    /// Closes the open nested object: puts it, as a `U64Object`, under its
    /// key in the parent, and goes on with the parent. Fails at the root.
    pub fn finish(self) -> (r: Result<Box<U64ObjectBuilder>, BuildError>)
        requires
            self.inv(),
        ensures
            self.ancestors().len() == 0 ==> r == Err::<Box<U64ObjectBuilder>, BuildError>(
                BuildError::FinishAtRoot,
            ),
            self.ancestors().len() > 0 ==> (r matches Ok(p) && p.inv() && p.entries() == put(
                self.ancestors().last().0,
                self.ancestors().last().1,
                Model::U64Object(self.entries()),
                u64_order(),
            ) && p.ancestors() == self.ancestors().drop_last()),
    {
        let U64ObjectBuilder { map, mut frames } = self;
        match frames.pop() {
            None => Err(BuildError::FinishAtRoot),
            Some((mut parent, key)) => {
                let child = Value::U64Object(map);
                let ghost pm = u64_entries_model(parent@);
                let ghost last = self.ancestors().last();
                assert(self.ancestors()[self.ancestors().len() - 1] == last);
                assert(last == (pm, key));
                assert(sorted_by(self.ancestors()[self.ancestors().len() - 1].0, u64_order()));
                proof {
                    lemma_u64_order_total();
                    lemma_put_props(pm, key, child.model(), u64_order());
                }
                insert_u64_entry(&mut parent, key, child);
                let r = U64ObjectBuilder { map: parent, frames };
                assert(r.ancestors() =~= self.ancestors().drop_last());
                assert forall|i: int| 0 <= i < r.ancestors().len() implies sorted_by(
                    #[trigger] r.ancestors()[i].0,
                    u64_order(),
                ) by {
                    assert(r.ancestors()[i] == self.ancestors()[i]);
                }
                Ok(Box::new(r))
            },
        }
    }

    /// The object built, as a `U64Object`. Fails while a nested object is
    /// still open.
    pub fn value(self) -> (r: Result<Value, BuildError>)
        requires
            self.inv(),
        ensures
            self.ancestors().len() > 0 ==> r == Err::<Value, BuildError>(
                BuildError::UnfinishedChild,
            ),
            self.ancestors().len() == 0 ==> (r matches Ok(v) && v.model() == Model::U64Object(
                self.entries(),
            )),
    {
        if self.frames.len() > 0 {
            Err(BuildError::UnfinishedChild)
        } else {
            Ok(Value::U64Object(self.map))
        }
    }
}

} // verus!
