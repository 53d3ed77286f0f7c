//! Free-variable analysis, alpha-renaming with deterministic fresh names, and
//! capture-avoiding substitution, both single and simultaneous.

use vstd::prelude::*;
use vstd::string::StringExecFns;
use crate::expr::{esize, free_vars_of, Expr, ExprModel, Identifier};

verus! {

broadcast use vstd::seq_lib::group_seq_properties, vstd::set_lib::group_set_properties;

/// The set of names that a sequence of identifiers denotes.
pub open spec fn names_in(ids: Seq<Identifier>) -> Set<Seq<char>> {
    ids.map_values(|id: Identifier| id@).to_set()
}

/// The free-variable set of an expression, as an executable value.
pub struct FreeVars {
    items: Vec<Identifier>,
}

impl View for FreeVars {
    type V = Set<Seq<char>>;

    closed spec fn view(&self) -> Set<Seq<char>> {
        names_in(self.items@)
    }
}

impl FreeVars {
    /// The names in the set, one identifier per occurrence recorded.
    pub fn to_vec(self) -> (r: Vec<Identifier>)
        ensures
            names_in(r@) == self@,
    {
        self.items
    }

    pub fn contains(&self, id: &Identifier) -> (r: bool)
        ensures
            r == self@.contains(id@),
    {
        let mut j: usize = 0;
        while j < self.items.len()
            invariant
                j <= self.items.len(),
                forall|k: int| 0 <= k < j ==> self.items@[k]@ != id@,
            decreases self.items.len() - j,
        {
            if &self.items[j] == id {
                assert(self@.contains(id@)) by {
                    assert(self.items@.map_values(|i: Identifier| i@)[j as int] == id@);
                }
                return true;
            }
            j += 1;
        }
        assert(!self@.contains(id@)) by {
            if self@.contains(id@) {
                let m = self.items@.map_values(|i: Identifier| i@);
                let k = choose|k: int| 0 <= k < m.len() && m[k] == id@;
                assert(self.items@[k]@ == id@);
            }
        }
        false
    }
}

/// Collects the free variables of `e`: variables minus the parameters of the
/// lambdas that bind them; symbols contribute nothing.
pub fn free_vars(e: &Expr) -> (r: FreeVars)
    ensures
        r@ == free_vars_of(e@),
    decreases *e,
{
    match e {
        Expr::Variable(id) => {
            let mut items: Vec<Identifier> = Vec::new();
            items.push(id.clone());
            let r = FreeVars { items };
            proof {
                lemma_names_in_push(Seq::empty(), *id);
                assert(names_in(Seq::<Identifier>::empty()) =~= Set::empty());
                assert(r.items@ =~= Seq::empty().push(*id));
                assert(r@ =~= free_vars_of(e@));
            }
            r
        },
        Expr::Symbol(_) => {
            let r = FreeVars { items: Vec::new() };
            proof {
                assert(r@ =~= free_vars_of(e@));
            }
            r
        },
        Expr::Apply { lhs, rhs } => {
            let mut left = free_vars(lhs).items;
            let mut right = free_vars(rhs).items;
            proof {
                lemma_names_in_append(left@, right@);
            }
            left.append(&mut right);
            let r = FreeVars { items: left };
            proof {
                assert(r@ =~= free_vars_of(e@));
            }
            r
        },
        Expr::Lambda { param, body } => {
            let inner = free_vars(body).items;
            let mut items: Vec<Identifier> = Vec::new();
            let mut j: usize = 0;
            while j < inner.len()
                invariant
                    j <= inner.len(),
                    names_in(items@) =~= names_in(inner@.take(j as int)).remove(param@),
                decreases inner.len() - j,
            {
                proof {
                    assert(inner@.take(j + 1) =~= inner@.take(j as int).push(inner@[j as int]));
                    lemma_names_in_push(inner@.take(j as int), inner@[j as int]);
                }
                let ghost before = names_in(items@);
                if !(&inner[j] == param) {
                    proof {
                        lemma_names_in_push(items@, inner@[j as int]);
                    }
                    items.push(inner[j].clone());
                    proof {
                        assert(names_in(items@) =~= before.insert(inner@[j as int]@));
                        assert(names_in(items@) =~= names_in(inner@.take(j + 1)).remove(
                            param@,
                        ));
                    }
                } else {
                    proof {
                        assert(names_in(items@) =~= names_in(inner@.take(j + 1)).remove(
                            param@,
                        ));
                    }
                }
                j += 1;
            }
            proof {
                assert(inner@.take(inner@.len() as int) =~= inner@);
            }
            let r = FreeVars { items };
            proof {
                assert(r@ =~= free_vars_of(e@));
            }
            r
        },
    }
}

pub proof fn lemma_names_in_push(ids: Seq<Identifier>, id: Identifier)
    ensures
        names_in(ids.push(id)) =~= names_in(ids).insert(id@),
{
    let f = |i: Identifier| i@;
    assert(ids.push(id).map_values(f) =~= ids.map_values(f).push(id@));
    ids.map_values(f).lemma_push_to_set_commute(id@);
}

pub proof fn lemma_names_in_append(a: Seq<Identifier>, b: Seq<Identifier>)
    ensures
        names_in(a + b) =~= names_in(a).union(names_in(b)),
{
    let f = |i: Identifier| i@;
    assert((a + b).map_values(f) =~= a.map_values(f) + b.map_values(f));
    vstd::seq_lib::seq_to_set_distributes_over_add(a.map_values(f), b.map_values(f));
}

// ------------------------------------------------------------------------ //
// Fresh names

/// The character for a single decimal digit.
pub open spec fn digit_char(d: nat) -> char {
    if d == 0 { '0' }
    else if d == 1 { '1' }
    else if d == 2 { '2' }
    else if d == 3 { '3' }
    else if d == 4 { '4' }
    else if d == 5 { '5' }
    else if d == 6 { '6' }
    else if d == 7 { '7' }
    else if d == 8 { '8' }
    else { '9' }
}

/// The decimal rendering of `n`, most significant digit first.
pub open spec fn dec_digits(n: nat) -> Seq<char>
    decreases n,
{
    if n < 10 {
        seq![digit_char(n)]
    } else {
        dec_digits(n / 10).push(digit_char(n % 10))
    }
}

/// The `k`-th candidate that fresh-name search tries: the seed with a
/// numeric suffix.
pub open spec fn candidate(seed: Seq<char>, k: nat) -> Seq<char> {
    seed + dec_digits(k)
}

proof fn lemma_dec_digits_injective(a: nat, b: nat)
    ensures
        dec_digits(a) == dec_digits(b) ==> a == b,
    decreases a + b,
{
    if dec_digits(a) == dec_digits(b) {
        if a < 10 && b < 10 {
            assert(dec_digits(a)[0] == digit_char(a));
            assert(dec_digits(b)[0] == digit_char(b));
        } else if a < 10 && b >= 10 {
            assert(dec_digits(b).len() == dec_digits(b / 10).len() + 1);
            assert(dec_digits(a).len() == 1);
            assert(dec_digits(b / 10).len() >= 1) by {
                lemma_dec_digits_len(b / 10);
            }
        } else if a >= 10 && b < 10 {
            assert(dec_digits(a).len() == dec_digits(a / 10).len() + 1);
            assert(dec_digits(a / 10).len() >= 1) by {
                lemma_dec_digits_len(a / 10);
            }
        } else {
            assert(dec_digits(a).last() == digit_char(a % 10));
            assert(dec_digits(b).last() == digit_char(b % 10));
            assert(dec_digits(a).drop_last() =~= dec_digits(a / 10));
            assert(dec_digits(b).drop_last() =~= dec_digits(b / 10));
            lemma_dec_digits_injective(a / 10, b / 10);
            assert(a % 10 == b % 10) by {
                assert(digit_char(a % 10) == digit_char(b % 10));
            }
            assert(a == 10 * (a / 10) + a % 10);
            assert(b == 10 * (b / 10) + b % 10);
        }
    }
}

proof fn lemma_dec_digits_len(n: nat)
    ensures
        dec_digits(n).len() >= 1,
    decreases n,
{
    if n >= 10 {
        lemma_dec_digits_len(n / 10);
    }
}

proof fn lemma_candidate_injective(seed: Seq<char>, a: nat, b: nat)
    ensures
        candidate(seed, a) == candidate(seed, b) ==> a == b,
{
    if candidate(seed, a) == candidate(seed, b) {
        let ca = candidate(seed, a);
        assert(dec_digits(a) =~= ca.subrange(seed.len() as int, ca.len() as int));
        assert(dec_digits(b) =~= ca.subrange(seed.len() as int, ca.len() as int));
        lemma_dec_digits_injective(a, b);
    }
}

/// Some candidate with index at most `avoid.len()` escapes a finite `avoid`
/// set: the candidates are pairwise distinct, and there are more of them than
/// the set has members.
proof fn lemma_fresh_exists(avoid: Set<Seq<char>>, seed: Seq<char>)
    requires
        avoid.finite(),
    ensures
        exists|k: nat| k <= avoid.len() && !avoid.contains(candidate(seed, k)),
{
    if forall|k: nat| k <= avoid.len() ==> avoid.contains(candidate(seed, k)) {
        lemma_candidates_below(avoid, seed, avoid.len() + 1);
        assert(false);
    }
}

/// If every candidate below `n` is in the set, the set has at least `n`
/// members.
proof fn lemma_candidates_below(avoid: Set<Seq<char>>, seed: Seq<char>, n: nat)
    requires
        avoid.finite(),
        forall|k: nat| k < n ==> avoid.contains(candidate(seed, k)),
    ensures
        avoid.len() >= n,
    decreases n,
{
    if n > 0 {
        let smaller = avoid.remove(candidate(seed, (n - 1) as nat));
        assert forall|k: nat| k < n - 1 implies smaller.contains(candidate(seed, k)) by {
            lemma_candidate_injective(seed, k, (n - 1) as nat);
        }
        lemma_candidates_below(smaller, seed, (n - 1) as nat);
    }
}

/// The index of the first candidate not in `avoid`.
pub open spec fn fresh_index(avoid: Set<Seq<char>>, seed: Seq<char>) -> nat {
    choose|k: nat| !avoid.contains(candidate(seed, k)) && forall|j: nat|
        j < k ==> avoid.contains(candidate(seed, j))
}

/// The deterministic fresh name: the seed with the least numeric suffix that
/// avoids `avoid`.
pub open spec fn fresh_name(avoid: Set<Seq<char>>, seed: Seq<char>) -> Seq<char> {
    candidate(seed, fresh_index(avoid, seed))
}

pub proof fn lemma_fresh_name_avoids(avoid: Set<Seq<char>>, seed: Seq<char>)
    requires
        avoid.finite(),
    ensures
        !avoid.contains(fresh_name(avoid, seed)),
        fresh_index(avoid, seed) <= avoid.len(),
        forall|j: nat| j < fresh_index(avoid, seed) ==> avoid.contains(candidate(seed, j)),
{
    lemma_fresh_exists(avoid, seed);
    let k0 = choose|k: nat| k <= avoid.len() && !avoid.contains(candidate(seed, k));
    lemma_least_escape(avoid, seed, k0);
    let w = choose|k: nat|
        !avoid.contains(candidate(seed, k)) && (forall|j: nat|
            j < k ==> avoid.contains(candidate(seed, j)));
    assert(w <= k0);
}

/// Below any escaping index there is a least one.
proof fn lemma_least_escape(avoid: Set<Seq<char>>, seed: Seq<char>, k0: nat)
    requires
        !avoid.contains(candidate(seed, k0)),
    ensures
        exists|k: nat|
            k <= k0 && !avoid.contains(candidate(seed, k)) && (forall|j: nat|
                j < k ==> avoid.contains(candidate(seed, j))),
    decreases k0,
{
    if forall|j: nat| j < k0 ==> avoid.contains(candidate(seed, j)) {
        assert(k0 <= k0 && !avoid.contains(candidate(seed, k0)) && (forall|j: nat|
            j < k0 ==> avoid.contains(candidate(seed, j))));
    } else {
        let j0 = choose|j: nat| j < k0 && !avoid.contains(candidate(seed, j));
        lemma_least_escape(avoid, seed, j0);
    }
}

/// Appends the decimal rendering of `n` to `out`.
pub(crate) fn push_dec_digits(out: &mut String, n: u64)
    ensures
        final(out)@ == old(out)@ + dec_digits(n as nat),
    decreases n,
{
    if n < 10 {
        let d: &str = match n {
            0 => "0",
            1 => "1",
            2 => "2",
            3 => "3",
            4 => "4",
            5 => "5",
            6 => "6",
            7 => "7",
            8 => "8",
            _ => "9",
        };
        proof {
            reveal_strlit("0");
            reveal_strlit("1");
            reveal_strlit("2");
            reveal_strlit("3");
            reveal_strlit("4");
            reveal_strlit("5");
            reveal_strlit("6");
            reveal_strlit("7");
            reveal_strlit("8");
            reveal_strlit("9");
            assert(d@ =~= seq![digit_char(n as nat)]);
        }
        out.append(d);
    } else {
        push_dec_digits(out, n / 10);
        let ghost prefix = out@;
        let d: &str = match n % 10 {
            0 => "0",
            1 => "1",
            2 => "2",
            3 => "3",
            4 => "4",
            5 => "5",
            6 => "6",
            7 => "7",
            8 => "8",
            _ => "9",
        };
        proof {
            reveal_strlit("0");
            reveal_strlit("1");
            reveal_strlit("2");
            reveal_strlit("3");
            reveal_strlit("4");
            reveal_strlit("5");
            reveal_strlit("6");
            reveal_strlit("7");
            reveal_strlit("8");
            reveal_strlit("9");
            assert(d@ =~= seq![digit_char((n % 10) as nat)]);
        }
        out.append(d);
        proof {
            assert(final(out)@ =~= old(out)@ + dec_digits(n as nat));
        }
    }
}

/// A fresh identifier: the seed with the least numeric suffix whose name is
/// not among `avoid`. Deterministic, so reductions are reproducible.
pub fn fresh(avoid: &FreeVars, seed: &Identifier) -> (r: Identifier)
    ensures
        r@ == fresh_name(avoid@, seed@),
        !avoid@.contains(r@),
{
    proof {
        lemma_fresh_name_avoids(avoid@, seed@);
        avoid.items@.map_values(|i: Identifier| i@).lemma_cardinality_of_set();
    }
    let cap: usize = avoid.items.len();
    let ghost k0 = fresh_index(avoid@, seed@);
    let mut k: u64 = 0;
    loop
        invariant
            k <= k0 <= cap,
            forall|j: nat| j < k0 ==> avoid@.contains(candidate(seed@, j)),
            !avoid@.contains(candidate(seed@, k0)),
        decreases k0 - k,
    {
        let mut name = seed.as_str().to_owned();
        push_dec_digits(&mut name, k);
        proof {
            assert(name@ == candidate(seed@, k as nat));
        }
        let id = Identifier::from_string(name);
        if !avoid.contains(&id) {
            proof {
                if (k as nat) < k0 {
                    assert(avoid@.contains(candidate(seed@, k as nat)));
                }
                assert(k == k0);
            }
            return id;
        }
        proof {
            if k as nat == k0 {
                assert(false);
            }
        }
        k += 1;
    }
}

// ------------------------------------------------------------------------ //
// Renaming

/// Replaces every occurrence of `o` in `e`, reference or binder, by `n`: the
/// form renaming takes inside a binder of `o` that is itself being renamed.
pub open spec fn rename_all(e: ExprModel, o: Seq<char>, n: Seq<char>) -> ExprModel
    decreases e,
{
    match e {
        ExprModel::Variable { id } => ExprModel::Variable { id: if id == o { n } else { id } },
        ExprModel::Symbol { id } => ExprModel::Symbol { id },
        ExprModel::Apply { lhs, rhs } => ExprModel::Apply {
            lhs: Box::new(rename_all(*lhs, o, n)),
            rhs: Box::new(rename_all(*rhs, o, n)),
        },
        ExprModel::Lambda { param, body } => ExprModel::Lambda {
            param: if param == o { n } else { param },
            body: Box::new(rename_all(*body, o, n)),
        },
    }
}

/// Renames every binding occurrence of `o` in `e`, together with the
/// references each binder binds; free references to `o` stay.
pub open spec fn rename_binders(e: ExprModel, o: Seq<char>, n: Seq<char>) -> ExprModel
    decreases e,
{
    match e {
        ExprModel::Variable { .. } => e,
        ExprModel::Symbol { .. } => e,
        ExprModel::Apply { lhs, rhs } => ExprModel::Apply {
            lhs: Box::new(rename_binders(*lhs, o, n)),
            rhs: Box::new(rename_binders(*rhs, o, n)),
        },
        ExprModel::Lambda { param, body } => {
            if param == o {
                ExprModel::Lambda { param: n, body: Box::new(rename_all(*body, o, n)) }
            } else {
                ExprModel::Lambda { param, body: Box::new(rename_binders(*body, o, n)) }
            }
        },
    }
}

pub proof fn lemma_rename_all_size(e: ExprModel, o: Seq<char>, n: Seq<char>)
    ensures
        esize(rename_all(e, o, n)) == esize(e),
    decreases e,
{
    match e {
        ExprModel::Variable { .. } => {},
        ExprModel::Symbol { .. } => {},
        ExprModel::Apply { lhs, rhs } => {
            lemma_rename_all_size(*lhs, o, n);
            lemma_rename_all_size(*rhs, o, n);
        },
        ExprModel::Lambda { body, .. } => {
            lemma_rename_all_size(*body, o, n);
        },
    }
}

fn rename_all_exec(e: &Expr, o: &Identifier, n: &Identifier) -> (r: Expr)
    ensures
        r@ == rename_all(e@, o@, n@),
    decreases *e,
{
    match e {
        Expr::Variable(id) => Expr::Variable(if id == o { n.clone() } else { id.clone() }),
        Expr::Symbol(id) => Expr::Symbol(id.clone()),
        Expr::Apply { lhs, rhs } => Expr::Apply {
            lhs: Box::new(rename_all_exec(lhs, o, n)),
            rhs: Box::new(rename_all_exec(rhs, o, n)),
        },
        Expr::Lambda { param, body } => Expr::Lambda {
            param: if param == o { n.clone() } else { param.clone() },
            body: Box::new(rename_all_exec(body, o, n)),
        },
    }
}

/// Renames every binding occurrence of `old` in `e`, with the references it
/// binds, to `new`; used before a capture-risking substitution.
pub fn alpha_rename(e: &Expr, old_name: &Identifier, new_name: &Identifier) -> (r: Expr)
    ensures
        r@ == rename_binders(e@, old_name@, new_name@),
    decreases *e,
{
    match e {
        Expr::Variable(_) => e.clone(),
        Expr::Symbol(_) => e.clone(),
        Expr::Apply { lhs, rhs } => Expr::Apply {
            lhs: Box::new(alpha_rename(lhs, old_name, new_name)),
            rhs: Box::new(alpha_rename(rhs, old_name, new_name)),
        },
        Expr::Lambda { param, body } => {
            if param == old_name {
                Expr::Lambda {
                    param: new_name.clone(),
                    body: Box::new(rename_all_exec(body, old_name, new_name)),
                }
            } else {
                Expr::Lambda {
                    param: param.clone(),
                    body: Box::new(alpha_rename(body, old_name, new_name)),
                }
            }
        },
    }
}

// ------------------------------------------------------------------------ //
// Substitution

/// Capture-avoiding call-by-name substitution of `arg` for the variable `x`.
/// A lambda whose parameter would capture a free variable of `arg` is
/// alpha-renamed to the deterministic fresh name first.
pub open spec fn subst_model(e: ExprModel, x: Seq<char>, arg: ExprModel) -> ExprModel
    decreases esize(e),
    via subst_model_dec
{
    match e {
        ExprModel::Variable { id } => if id == x { arg } else { e },
        ExprModel::Symbol { .. } => e,
        ExprModel::Apply { lhs, rhs } => ExprModel::Apply {
            lhs: Box::new(subst_model(*lhs, x, arg)),
            rhs: Box::new(subst_model(*rhs, x, arg)),
        },
        ExprModel::Lambda { param, body } => {
            if param == x {
                e
            } else if free_vars_of(arg).contains(param) {
                let q = fresh_name(
                    free_vars_of(arg).union(free_vars_of(*body)).insert(x),
                    param,
                );
                ExprModel::Lambda { param: q, body: Box::new(subst_model(rename_all(*body, param, q), x, arg)) }
            } else {
                ExprModel::Lambda { param, body: Box::new(subst_model(*body, x, arg)) }
            }
        },
    }
}

#[via_fn]
proof fn subst_model_dec(e: ExprModel, x: Seq<char>, arg: ExprModel) {
    if let ExprModel::Lambda { param, body } = e {
        if param != x && free_vars_of(arg).contains(param) {
            let q = fresh_name(
                free_vars_of(arg).union(free_vars_of(*body)).insert(x),
                param,
            );
            lemma_rename_all_size(*body, param, q);
        }
    }
}

/// Substituting a variable for itself changes nothing.
pub proof fn lemma_subst_identity(e: ExprModel, x: Seq<char>)
    ensures
        subst_model(e, x, ExprModel::Variable { id: x }) == e,
    decreases esize(e),
{
    let arg = ExprModel::Variable { id: x };
    match e {
        ExprModel::Variable { .. } => {},
        ExprModel::Symbol { .. } => {},
        ExprModel::Apply { lhs, rhs } => {
            lemma_subst_identity(*lhs, x);
            lemma_subst_identity(*rhs, x);
        },
        ExprModel::Lambda { param, body } => {
            if param != x {
                assert(free_vars_of(arg) =~= Set::empty().insert(x));
                lemma_subst_identity(*body, x);
            }
        },
    }
}

// ------------------------------------------------------------------------ //
// Simultaneous substitution

/// The argument bound to `v` by the pair list, if any; the first pair wins.
pub open spec fn lookup_pair(ps: Seq<(Seq<char>, ExprModel)>, v: Seq<char>) -> Option<ExprModel>
    decreases ps.len(),
{
    if ps.len() == 0 {
        None
    } else if ps[0].0 == v {
        Some(ps[0].1)
    } else {
        lookup_pair(ps.drop_first(), v)
    }
}

/// The pairs that survive under a binder of `p`: those for other names.
pub open spec fn drop_shadowed(ps: Seq<(Seq<char>, ExprModel)>, p: Seq<char>) -> Seq<
    (Seq<char>, ExprModel),
>
    decreases ps.len(),
{
    if ps.len() == 0 {
        ps
    } else if ps[0].0 == p {
        drop_shadowed(ps.drop_first(), p)
    } else {
        seq![ps[0]] + drop_shadowed(ps.drop_first(), p)
    }
}

/// The names the pair list substitutes for.
pub open spec fn pair_names(ps: Seq<(Seq<char>, ExprModel)>) -> Set<Seq<char>> {
    ps.map_values(|pr: (Seq<char>, ExprModel)| pr.0).to_set()
}

/// The free variables of all the arguments in the pair list.
pub open spec fn pairs_free(ps: Seq<(Seq<char>, ExprModel)>) -> Set<Seq<char>>
    decreases ps.len(),
{
    if ps.len() == 0 {
        Set::empty()
    } else {
        free_vars_of(ps[0].1).union(pairs_free(ps.drop_first()))
    }
}

/// Capture-avoiding simultaneous substitution: every pair is applied against
/// the original term, left-to-right on name clashes.
pub open spec fn subst_sim_model(e: ExprModel, ps: Seq<(Seq<char>, ExprModel)>) -> ExprModel
    decreases esize(e),
    via subst_sim_model_dec
{
    match e {
        ExprModel::Variable { id } => match lookup_pair(ps, id) {
            Option::Some(arg) => arg,
            Option::None => e,
        },
        ExprModel::Symbol { .. } => e,
        ExprModel::Apply { lhs, rhs } => ExprModel::Apply {
            lhs: Box::new(subst_sim_model(*lhs, ps)),
            rhs: Box::new(subst_sim_model(*rhs, ps)),
        },
        ExprModel::Lambda { param, body } => {
            let ps2 = drop_shadowed(ps, param);
            if pairs_free(ps2).contains(param) {
                let q = fresh_name(
                    pairs_free(ps2).union(free_vars_of(*body)).union(pair_names(ps2)),
                    param,
                );
                ExprModel::Lambda { param: q, body: Box::new(subst_sim_model(rename_all(*body, param, q), ps2)) }
            } else {
                ExprModel::Lambda { param, body: Box::new(subst_sim_model(*body, ps2)) }
            }
        },
    }
}

#[via_fn]
proof fn subst_sim_model_dec(e: ExprModel, ps: Seq<(Seq<char>, ExprModel)>) {
    if let ExprModel::Lambda { param, body } = e {
        let ps2 = drop_shadowed(ps, param);
        if pairs_free(ps2).contains(param) {
            let q = fresh_name(
                pairs_free(ps2).union(free_vars_of(*body)).union(pair_names(ps2)),
                param,
            );
            lemma_rename_all_size(*body, param, q);
        }
    }
}

/// The model of an executable pair list.
pub open spec fn pairs_view(ps: Seq<(Identifier, Expr)>) -> Seq<(Seq<char>, ExprModel)> {
    ps.map_values(|pr: (Identifier, Expr)| (pr.0@, pr.1@))
}

proof fn lemma_lookup_pair_skip(ps: Seq<(Seq<char>, ExprModel)>, v: Seq<char>, j: int)
    requires
        0 <= j <= ps.len(),
        forall|k: int| 0 <= k < j ==> ps[k].0 != v,
    ensures
        lookup_pair(ps, v) == lookup_pair(ps.skip(j), v),
    decreases j,
{
    if j > 0 {
        assert(ps.drop_first().skip(j - 1) =~= ps.skip(j));
        lemma_lookup_pair_skip(ps.drop_first(), v, j - 1);
    }
}

proof fn lemma_drop_shadowed_push(
    ps: Seq<(Seq<char>, ExprModel)>,
    pr: (Seq<char>, ExprModel),
    p: Seq<char>,
)
    ensures
        drop_shadowed(ps.push(pr), p) == if pr.0 == p {
            drop_shadowed(ps, p)
        } else {
            drop_shadowed(ps, p).push(pr)
        },
    decreases ps.len(),
{
    if ps.len() == 0 {
        assert(ps.push(pr).drop_first() =~= ps);
        if pr.0 != p {
            assert(seq![pr] + drop_shadowed(ps, p) =~= drop_shadowed(ps, p).push(pr));
        }
    } else {
        assert(ps.push(pr).drop_first() =~= ps.drop_first().push(pr));
        lemma_drop_shadowed_push(ps.drop_first(), pr, p);
        if pr.0 != p && ps[0].0 != p {
            assert(seq![ps[0]] + drop_shadowed(ps.drop_first(), p).push(pr) =~= (seq![ps[0]]
                + drop_shadowed(ps.drop_first(), p)).push(pr));
        }
    }
}

proof fn lemma_pairs_free_push(ps: Seq<(Seq<char>, ExprModel)>, pr: (Seq<char>, ExprModel))
    ensures
        pairs_free(ps.push(pr)) =~= pairs_free(ps).union(free_vars_of(pr.1)),
    decreases ps.len(),
{
    if ps.len() == 0 {
        assert(ps.push(pr)[0] == pr);
        assert(ps.push(pr).drop_first() =~= ps);
    } else {
        assert(ps.push(pr).drop_first() =~= ps.drop_first().push(pr));
        lemma_pairs_free_push(ps.drop_first(), pr);
    }
}

/// Membership in `pairs_free` means membership in some argument.
proof fn lemma_pairs_free_member(ps: Seq<(Seq<char>, ExprModel)>, x: Seq<char>)
    ensures
        pairs_free(ps).contains(x) <==> exists|i: int|
            0 <= i < ps.len() && free_vars_of(ps[i].1).contains(x),
    decreases ps.len(),
{
    if ps.len() > 0 {
        lemma_pairs_free_member(ps.drop_first(), x);
        if free_vars_of(ps[0].1).contains(x) {
        } else if pairs_free(ps.drop_first()).contains(x) {
            let i = choose|i: int|
                0 <= i < ps.drop_first().len() && free_vars_of(
                    ps.drop_first()[i].1,
                ).contains(x);
            assert(free_vars_of(ps[i + 1].1).contains(x));
        } else {
            assert forall|i: int|
                0 <= i < ps.len() && free_vars_of(ps[i].1).contains(x) implies false by {
                if i > 0 {
                    assert(ps.drop_first()[i - 1] == ps[i]);
                }
            }
        }
    }
}

proof fn lemma_pair_names_push(ps: Seq<(Seq<char>, ExprModel)>, pr: (Seq<char>, ExprModel))
    ensures
        pair_names(ps.push(pr)) =~= pair_names(ps).insert(pr.0),
{
    let f = |q: (Seq<char>, ExprModel)| q.0;
    assert(ps.push(pr).map_values(f) =~= ps.map_values(f).push(pr.0));
    ps.map_values(f).lemma_push_to_set_commute(pr.0);
}

/// Simultaneous substitution of the paired arguments into `e`.
#[verifier::rlimit(100)]
pub fn subst_many(e: &Expr, pairs: &Vec<(Identifier, Expr)>) -> (r: Expr)
    ensures
        r@ == subst_sim_model(e@, pairs_view(pairs@)),
    decreases esize(e@),
{
    let ghost ps = pairs_view(pairs@);
    match e {
        Expr::Variable(id) => {
            let mut j: usize = 0;
            while j < pairs.len()
                invariant
                    j <= pairs.len(),
                    ps == pairs_view(pairs@),
                    e@ == (ExprModel::Variable { id: id@ }),
                    forall|k: int| 0 <= k < j ==> ps[k].0 != id@,
                decreases pairs.len() - j,
            {
                if &pairs[j].0 == id {
                    proof {
                        assert(ps[j as int] == (pairs@[j as int].0@, pairs@[j as int].1@));
                        lemma_lookup_pair_skip(ps, id@, j as int);
                        assert(ps.skip(j as int)[0] == ps[j as int]);
                        assert(lookup_pair(ps, id@) == Some(ps[j as int].1));
                    }
                    let r = pairs[j].1.clone();
                    proof {
                        assert(r@ == ps[j as int].1);
                        assert(e@ == (ExprModel::Variable { id: id@ }));
                        assert(subst_sim_model(e@, ps) == ps[j as int].1);
                    }
                    return r;
                }
                j += 1;
            }
            proof {
                lemma_lookup_pair_skip(ps, id@, pairs.len() as int);
                assert(ps.skip(ps.len() as int) =~= Seq::empty());
            }
            e.clone()
        },
        Expr::Symbol(_) => e.clone(),
        Expr::Apply { lhs, rhs } => Expr::Apply {
            lhs: Box::new(subst_many(lhs, pairs)),
            rhs: Box::new(subst_many(rhs, pairs)),
        },
        Expr::Lambda { param, body } => {
            // Drop the pairs this binder shadows.
            let mut kept: Vec<(Identifier, Expr)> = Vec::new();
            let mut j: usize = 0;
            proof {
                assert(ps.take(0) =~= Seq::empty());
            }
            while j < pairs.len()
                invariant
                    j <= pairs.len(),
                    ps == pairs_view(pairs@),
                    pairs_view(kept@) == drop_shadowed(ps.take(j as int), param@),
                decreases pairs.len() - j,
            {
                proof {
                    assert(ps.take(j + 1) =~= ps.take(j as int).push(ps[j as int]));
                    lemma_drop_shadowed_push(ps.take(j as int), ps[j as int], param@);
                }
                if !(&pairs[j].0 == param) {
                    let pair = (pairs[j].0.clone(), pairs[j].1.clone());
                    kept.push(pair);
                    proof {
                        assert(pairs_view(kept@) =~= pairs_view(kept@.drop_last()).push(
                            ps[j as int],
                        ));
                    }
                }
                j += 1;
            }
            proof {
                assert(ps.take(ps.len() as int) =~= ps);
            }
            let ghost ps2 = drop_shadowed(ps, param@);
            // Does the binder capture a free variable of a surviving argument?
            let mut captures = false;
            let mut j: usize = 0;
            while j < kept.len()
                invariant
                    j <= kept.len(),
                    pairs_view(kept@) == ps2,
                    captures ==> pairs_free(ps2).contains(param@),
                    !captures ==> forall|k: int|
                        0 <= k < j ==> !free_vars_of(ps2[k].1).contains(param@),
                decreases kept.len() - j,
            {
                if !captures {
                    let fv = free_vars(&kept[j].1);
                    if fv.contains(param) {
                        captures = true;
                        proof {
                            lemma_pairs_free_member(ps2, param@);
                            assert(free_vars_of(ps2[j as int].1).contains(param@));
                        }
                    }
                }
                j += 1;
            }
            proof {
                if !captures {
                    lemma_pairs_free_member(ps2, param@);
                }
            }
            if captures {
                // Collect the names the fresh binder must avoid.
                let mut items: Vec<Identifier> = Vec::new();
                let mut j: usize = 0;
                proof {
                    assert(names_in(items@) =~= pairs_free(ps2.take(0)));
                    assert(ps2.take(0) =~= Seq::empty());
                }
                while j < kept.len()
                    invariant
                        j <= kept.len(),
                        pairs_view(kept@) == ps2,
                        names_in(items@) == pairs_free(ps2.take(j as int)),
                    decreases kept.len() - j,
                {
                    let mut fv = free_vars(&kept[j].1).to_vec();
                    proof {
                        lemma_names_in_append(items@, fv@);
                        assert(ps2.take(j + 1) =~= ps2.take(j as int).push(ps2[j as int]));
                        lemma_pairs_free_push(ps2.take(j as int), ps2[j as int]);
                    }
                    items.append(&mut fv);
                    proof {
                        assert(names_in(items@) =~= pairs_free(ps2.take(j + 1)));
                    }
                    j += 1;
                }
                proof {
                    assert(ps2.take(ps2.len() as int) =~= ps2);
                }
                let mut bitems = free_vars(body).to_vec();
                proof {
                    lemma_names_in_append(items@, bitems@);
                }
                items.append(&mut bitems);
                let ghost two = names_in(items@);
                let mut j: usize = 0;
                proof {
                    assert(pair_names(ps2.take(0)) =~= Set::empty());
                    assert(ps2.take(0) =~= Seq::empty());
                    assert(names_in(items@) =~= two.union(pair_names(ps2.take(0))));
                }
                while j < kept.len()
                    invariant
                        j <= kept.len(),
                        pairs_view(kept@) == ps2,
                        names_in(items@) == two.union(pair_names(ps2.take(j as int))),
                    decreases kept.len() - j,
                {
                    proof {
                        lemma_names_in_push(items@, kept@[j as int].0);
                        assert(ps2.take(j + 1) =~= ps2.take(j as int).push(ps2[j as int]));
                        lemma_pair_names_push(ps2.take(j as int), ps2[j as int]);
                    }
                    items.push(kept[j].0.clone());
                    proof {
                        assert(names_in(items@) =~= two.union(pair_names(ps2.take(j + 1))));
                    }
                    j += 1;
                }
                proof {
                    assert(ps2.take(ps2.len() as int) =~= ps2);
                }
                let avoid = FreeVars { items };
                proof {
                    assert(avoid@ =~= pairs_free(ps2).union(free_vars_of(body@)).union(
                        pair_names(ps2),
                    ));
                }
                let q = fresh(&avoid, param);
                let renamed = rename_all_exec(body, param, &q);
                proof {
                    lemma_rename_all_size(body@, param@, q@);
                }
                Expr::Lambda { param: q, body: Box::new(subst_many(&renamed, &kept)) }
            } else {
                Expr::Lambda { param: param.clone(), body: Box::new(subst_many(body, &kept)) }
            }
        },
    }
}

/// Standard call-by-name substitution `e[x := arg]`.
#[verifier::spinoff_prover]
#[verifier::rlimit(100)]
pub fn subst(e: &Expr, x: &Identifier, arg: &Expr) -> (r: Expr)
    ensures
        r@ == subst_model(e@, x@, arg@),
    decreases esize(e@),
{
    match e {
        Expr::Variable(id) => {
            if id == x {
                arg.clone()
            } else {
                e.clone()
            }
        },
        Expr::Symbol(_) => e.clone(),
        Expr::Apply { lhs, rhs } => Expr::Apply {
            lhs: Box::new(subst(lhs, x, arg)),
            rhs: Box::new(subst(rhs, x, arg)),
        },
        Expr::Lambda { param, body } => {
            if param == x {
                e.clone()
            } else {
                let afv = free_vars(arg);
                if afv.contains(param) {
                    let mut items = afv.to_vec();
                    let mut bitems = free_vars(body).to_vec();
                    proof {
                        lemma_names_in_append(items@, bitems@);
                    }
                    items.append(&mut bitems);
                    proof {
                        lemma_names_in_push(items@, *x);
                    }
                    items.push(x.clone());
                    let avoid = FreeVars { items };
                    proof {
                        assert(avoid@ =~= free_vars_of(arg@).union(free_vars_of(body@)).insert(
                            x@,
                        ));
                    }
                    let q = fresh(&avoid, param);
                    let renamed = rename_all_exec(body, param, &q);
                    proof {
                        lemma_rename_all_size(body@, param@, q@);
                    }
                    Expr::Lambda { param: q, body: Box::new(subst(&renamed, x, arg)) }
                } else {
                    Expr::Lambda { param: param.clone(), body: Box::new(subst(body, x, arg)) }
                }
            }
        },
    }
}

} // verus!
