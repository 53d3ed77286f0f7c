//! The context: an insertion-ordered mapping from function names to
//! definitions. The reducer reads it; the command layer mutates it.

use vstd::prelude::*;
use crate::expr::Identifier;
use crate::func::{Func, FuncModel};

verus! {

/// Model lookup: the first definition with the given name, if any.
pub open spec fn lookup_func(ctx: Seq<FuncModel>, name: Seq<char>) -> Option<FuncModel>
    decreases ctx.len(),
{
    if ctx.len() == 0 {
        None
    } else if ctx[0].name == name {
        Some(ctx[0])
    } else {
        lookup_func(ctx.drop_first(), name)
    }
}

/// Model removal of every definition with the given name.
pub open spec fn remove_name(ctx: Seq<FuncModel>, name: Seq<char>) -> Seq<FuncModel>
    decreases ctx.len(),
{
    if ctx.len() == 0 {
        ctx
    } else if ctx[0].name == name {
        remove_name(ctx.drop_first(), name)
    } else {
        seq![ctx[0]] + remove_name(ctx.drop_first(), name)
    }
}

/// Model insertion: any earlier definition of the name goes, the new one
/// joins at the end.
pub open spec fn def_model(ctx: Seq<FuncModel>, f: FuncModel) -> Seq<FuncModel> {
    remove_name(ctx, f.name).push(f)
}

/// Folding a sequence of definitions into a context, in order.
pub open spec fn defs_model(ctx: Seq<FuncModel>, fs: Seq<FuncModel>) -> Seq<FuncModel>
    decreases fs.len(),
{
    if fs.len() == 0 {
        ctx
    } else {
        defs_model(def_model(ctx, fs[0]), fs.drop_first())
    }
}

/// An insertion-ordered mapping from name to definition.
#[derive(Debug, PartialEq, Eq)]
pub struct Context {
    funcs: Vec<Func>,
}

impl View for Context {
    type V = Seq<FuncModel>;

    closed spec fn view(&self) -> Seq<FuncModel> {
        self.funcs@.map_values(|f: Func| f@)
    }
}

impl Context {
    /// An empty context.
    pub fn new() -> (r: Context)
        ensures
            r@ == Seq::<FuncModel>::empty(),
    {
        let r = Context { funcs: Vec::new() };
        proof {
            assert(r@ =~= Seq::<FuncModel>::empty());
        }
        r
    }

    /// Inserts or replaces the definition by name.
    pub fn def(&mut self, f: Func)
        ensures
            final(self)@ == def_model(old(self)@, f@),
    {
        self.del(f.name());
        let ghost removed = self@;
        self.funcs.push(f);
        proof {
            assert(self@ =~= removed.push(f@));
        }
    }

    /// Removes the definition with the given name, if present.
    pub fn del(&mut self, name: &Identifier)
        ensures
            final(self)@ == remove_name(old(self)@, name@),
    {
        let mut kept: Vec<Func> = Vec::new();
        let mut j: usize = 0;
        proof {
            assert(self@.take(0) =~= Seq::<FuncModel>::empty());
        }
        while j < self.funcs.len()
            invariant
                j <= self.funcs.len(),
                self@ == old(self)@,
                kept@.map_values(|f: Func| f@) == remove_name(self@.take(j as int), name@),
            decreases self.funcs.len() - j,
        {
            proof {
                assert(self@.take(j + 1) =~= self@.take(j as int).push(self@[j as int]));
                lemma_remove_name_push(self@.take(j as int), self@[j as int], name@);
                assert(self@[j as int] == self.funcs@[j as int]@);
            }
            if !(self.funcs[j].name() == name) {
                kept.push(self.funcs[j].clone());
                proof {
                    assert(kept@.map_values(|f: Func| f@) =~= kept@.drop_last().map_values(
                        |f: Func| f@,
                    ).push(self@[j as int]));
                }
            }
            j += 1;
        }
        proof {
            assert(self@.take(self@.len() as int) =~= self@);
        }
        self.funcs = kept;
    }

    /// The definition stored under `name`, if any.
    pub fn get(&self, name: &Identifier) -> (r: Option<&Func>)
        ensures
            match r {
                Some(f) => lookup_func(self@, name@) == Some(f@),
                None => lookup_func(self@, name@) == Option::<FuncModel>::None,
            },
    {
        let mut j: usize = 0;
        while j < self.funcs.len()
            invariant
                j <= self.funcs.len(),
                forall|k: int| 0 <= k < j ==> self@[k].name != name@,
            decreases self.funcs.len() - j,
        {
            if self.funcs[j].name() == name {
                proof {
                    lemma_lookup_skip(self@, name@, j as int);
                    assert(self@.skip(j as int)[0] == self@[j as int]);
                }
                return Some(&self.funcs[j]);
            }
            proof {
                assert(self@[j as int] == self.funcs@[j as int]@);
            }
            j += 1;
        }
        proof {
            lemma_lookup_skip(self@, name@, self@.len() as int);
            assert(self@.skip(self@.len() as int) =~= Seq::<FuncModel>::empty());
        }
        None
    }

    /// The arity of the definition stored under `name`, if any.
    pub fn arity(&self, name: &Identifier) -> (r: Option<usize>)
        ensures
            match r {
                Some(n) => lookup_func(self@, name@) matches Some(f) && f.params.len() == n,
                None => lookup_func(self@, name@) is None,
            },
    {
        match self.get(name) {
            Some(f) => Some(f.arity()),
            None => None,
        }
    }

    /// Builds a context by defining each function in order.
    pub fn from_vec(funcs: Vec<Func>) -> (r: Context)
        ensures
            r@ == defs_model(Seq::empty(), funcs@.map_values(|f: Func| f@)),
    {
        let ghost fs = funcs@.map_values(|f: Func| f@);
        let mut ctx = Context::new();
        let mut funcs = funcs;
        let mut j: usize = 0;
        proof {
            assert(fs.skip(0) =~= fs);
        }
        while j < funcs.len()
            invariant
                j <= funcs.len(),
                fs == funcs@.map_values(|f: Func| f@),
                defs_model(Seq::empty(), fs) == defs_model(ctx@, fs.skip(j as int)),
            decreases funcs.len() - j,
        {
            let f = funcs[j].clone();
            proof {
                assert(f@ == fs[j as int]);
                assert(fs.skip(j as int).drop_first() =~= fs.skip(j + 1));
            }
            ctx.def(f);
            j += 1;
        }
        proof {
            assert(fs.skip(fs.len() as int) =~= Seq::<FuncModel>::empty());
        }
        ctx
    }

    /// Appends a definition known to be fresh by name; the seed library uses
    /// it, with pairwise distinct names.
    pub(crate) fn push_def(&mut self, f: Func)
        ensures
            final(self)@ == old(self)@.push(f@),
    {
        let ghost prior = self@;
        self.funcs.push(f);
        proof {
            assert(self@ =~= prior.push(f@));
        }
    }

    /// The definitions, in iteration order.
    pub fn to_vec(self) -> (r: Vec<Func>)
        ensures
            r@.map_values(|f: Func| f@) == self@,
    {
        self.funcs
    }

    /// How many definitions the context holds.
    pub fn len(&self) -> (r: usize)
        ensures
            r == self@.len(),
    {
        self.funcs.len()
    }
}

impl Clone for Context {
    fn clone(&self) -> (r: Context)
        ensures
            r@ == self@,
    {
        let mut funcs: Vec<Func> = Vec::new();
        let mut j: usize = 0;
        while j < self.funcs.len()
            invariant
                j <= self.funcs.len(),
                funcs@.len() == j,
                forall|k: int| 0 <= k < j ==> funcs@[k]@ == self.funcs@[k]@,
            decreases self.funcs.len() - j,
        {
            funcs.push(self.funcs[j].clone());
            j += 1;
        }
        let r = Context { funcs };
        proof {
            assert(r@ =~= self@);
        }
        r
    }
}

proof fn lemma_remove_name_push(ctx: Seq<FuncModel>, f: FuncModel, name: Seq<char>)
    ensures
        remove_name(ctx.push(f), name) == if f.name == name {
            remove_name(ctx, name)
        } else {
            remove_name(ctx, name).push(f)
        },
    decreases ctx.len(),
{
    if ctx.len() == 0 {
        assert(ctx.push(f).drop_first() =~= ctx);
        if f.name != name {
            assert(seq![f] + remove_name(ctx, name) =~= remove_name(ctx, name).push(f));
        }
    } else {
        assert(ctx.push(f).drop_first() =~= ctx.drop_first().push(f));
        lemma_remove_name_push(ctx.drop_first(), f, name);
        if f.name != name && ctx[0].name != name {
            assert(seq![ctx[0]] + remove_name(ctx.drop_first(), name).push(f) =~= (seq![ctx[0]]
                + remove_name(ctx.drop_first(), name)).push(f));
        }
    }
}

proof fn lemma_lookup_skip(ctx: Seq<FuncModel>, name: Seq<char>, j: int)
    requires
        0 <= j <= ctx.len(),
        forall|k: int| 0 <= k < j ==> ctx[k].name != name,
    ensures
        lookup_func(ctx, name) == lookup_func(ctx.skip(j), name),
    decreases j,
{
    if j > 0 {
        assert(ctx.drop_first().skip(j - 1) =~= ctx.skip(j));
        lemma_lookup_skip(ctx.drop_first(), name, j - 1);
    } else {
        assert(ctx.skip(0) =~= ctx);
    }
}

} // verus!
