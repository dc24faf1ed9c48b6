//! The reachability pass over the symbol table: which declared types a type
//! leads to through the types of its members, and which types lead back to
//! themselves. A type that does is valid; it is only ever rendered by name.

use vstd::prelude::*;
use crate::bytes::same_bytes;
use crate::model::{views, TypeDecl, TypeDeclView, TypeRef};
use crate::resolver::{distinct_names, mentions, names_of, SymbolTable};

verus! {

/// The declaration called `from` has a member whose type holds the name
/// `to`.
pub open spec fn refers(decls: Seq<TypeDeclView>, from: Seq<u8>, to: Seq<u8>) -> bool {
    exists|i: int, k: int|
        0 <= i < decls.len() && 0 <= k < decls[i].fields.len() && decls[i].name == from
            && mentions(#[trigger] decls[i].fields[k].ty, to)
}

/// A chain of references, `steps` long at most, leads from `from` to `to`.
pub open spec fn reaches(decls: Seq<TypeDeclView>, from: Seq<u8>, to: Seq<u8>, steps: nat) -> bool
    decreases steps,
{
    steps > 0 && (refers(decls, from, to) || exists|mid: Seq<u8>| #[trigger]
        refers(decls, from, mid) && reaches(decls, mid, to, (steps - 1) as nat))
}

/// A chain of references leads from `from` to `to`.
pub open spec fn reachable(decls: Seq<TypeDeclView>, from: Seq<u8>, to: Seq<u8>) -> bool {
    exists|steps: nat| reaches(decls, from, to, steps)
}

/// The declaration at `i` has a member whose type holds `name`.
pub open spec fn holds_name(decls: Seq<TypeDeclView>, i: int, name: Seq<u8>) -> bool {
    exists|k: int| 0 <= k < decls[i].fields.len() && mentions(#[trigger] decls[i].fields[k].ty, name)
}

/// The declaration at `i` refers to the declaration at `j`.
pub open spec fn edge(decls: Seq<TypeDeclView>, i: int, j: int) -> bool {
    0 <= i < decls.len() && 0 <= j < decls.len() && holds_name(decls, i, decls[j].name)
}

/// The number of marks among the first `n`.
pub open spec fn marked(seen: Seq<bool>, n: int) -> int
    decreases n,
{
    if n <= 0 {
        0
    } else {
        marked(seen, n - 1) + if seen[n - 1] {
            1int
        } else {
            0int
        }
    }
}

proof fn lemma_marked_bound(seen: Seq<bool>, n: int)
    requires
        0 <= n <= seen.len(),
    ensures
        0 <= marked(seen, n) <= n,
    decreases n,
{
    if n > 0 {
        lemma_marked_bound(seen, n - 1);
    }
}

proof fn lemma_marked_grows(seen: Seq<bool>, j: int, n: int)
    requires
        0 <= j < seen.len(),
        !seen[j],
        0 <= n <= seen.len(),
    ensures
        marked(seen.update(j, true), n) == marked(seen, n) + if j < n {
            1int
        } else {
            0int
        },
    decreases n,
{
    if n > 0 {
        lemma_marked_grows(seen, j, n - 1);
    }
}

/// A chain that is followed by one more reference is a chain.
pub proof fn lemma_reaches_extend(
    decls: Seq<TypeDeclView>,
    a: Seq<u8>,
    b: Seq<u8>,
    c: Seq<u8>,
    steps: nat,
)
    requires
        reaches(decls, a, b, steps),
        refers(decls, b, c),
    ensures
        reaches(decls, a, c, steps + 1),
    decreases steps,
{
    if refers(decls, a, b) {
        assert(reaches(decls, b, c, steps));
    } else {
        let mid = choose|mid: Seq<u8>| #[trigger]
            refers(decls, a, mid) && reaches(decls, mid, b, (steps - 1) as nat);
        lemma_reaches_extend(decls, mid, b, c, (steps - 1) as nat);
        assert(refers(decls, a, mid) && reaches(decls, mid, c, steps));
    }
}

/// Between declarations with distinct names, a reference from one name to
/// another is an edge between the two declarations.
proof fn lemma_refers_edge(decls: Seq<TypeDeclView>, i: int, j: int)
    requires
        distinct_names(names_of(decls)),
        0 <= i < decls.len(),
        0 <= j < decls.len(),
    ensures
        refers(decls, decls[i].name, decls[j].name) == edge(decls, i, j),
{
    if refers(decls, decls[i].name, decls[j].name) {
        let (i2, k) = choose|i2: int, k: int|
            0 <= i2 < decls.len() && 0 <= k < decls[i2].fields.len() && decls[i2].name
                == decls[i].name && mentions(#[trigger] decls[i2].fields[k].ty, decls[j].name);
        assert(names_of(decls)[i2] == names_of(decls)[i]);
        assert(i2 == i);
    }
    if edge(decls, i, j) {
        let k = choose|k: int|
            0 <= k < decls[i].fields.len() && mentions(
                #[trigger] decls[i].fields[k].ty,
                decls[j].name,
            );
        assert(refers(decls, decls[i].name, decls[j].name));
    }
}

/// Every mark is on a declaration that `start` leads to.
pub open spec fn sound(decls: Seq<TypeDeclView>, start: int, seen: Seq<bool>) -> bool {
    &&& seen.len() == decls.len()
    &&& forall|j: int|
        0 <= j < seen.len() && #[trigger] seen[j] ==> reachable(
            decls,
            decls[start].name,
            decls[j].name,
        )
}

/// Every declaration that the one at `i` refers to is marked.
pub open spec fn expanded(decls: Seq<TypeDeclView>, seen: Seq<bool>, i: int) -> bool {
    forall|j: int| 0 <= j < decls.len() && edge(decls, i, j) ==> #[trigger] seen[j]
}

/// The declaration at `start` and every marked one is expanded or waits on
/// the stack, and only they wait there.
pub open spec fn pending(
    decls: Seq<TypeDeclView>,
    start: int,
    seen: Seq<bool>,
    stack: Seq<usize>,
) -> bool {
    &&& forall|s: int|
        0 <= s < stack.len() ==> (#[trigger] stack[s]) < decls.len() && (stack[s] == start
            || seen[stack[s] as int])
    &&& forall|i: int|
        0 <= i < decls.len() && (i == start || seen[i]) ==> #[trigger] expanded(decls, seen, i)
            || stack.contains(i as usize)
}

/// Once nothing waits, everything that `start` leads to is marked.
proof fn lemma_complete(
    decls: Seq<TypeDeclView>,
    start: int,
    seen: Seq<bool>,
    from: int,
    to: int,
    steps: nat,
)
    requires
        distinct_names(names_of(decls)),
        seen.len() == decls.len(),
        pending(decls, start, seen, Seq::empty()),
        0 <= from < decls.len(),
        from == start || seen[from],
        0 <= to < decls.len(),
        reaches(decls, decls[from].name, decls[to].name, steps),
    ensures
        seen[to],
    decreases steps,
{
    assert(expanded(decls, seen, from));
    if refers(decls, decls[from].name, decls[to].name) {
        lemma_refers_edge(decls, from, to);
    } else {
        let mid = choose|mid: Seq<u8>| #[trigger]
            refers(decls, decls[from].name, mid) && reaches(
                decls,
                mid,
                decls[to].name,
                (steps - 1) as nat,
            );
        assert(exists|x: Seq<u8>| refers(decls, mid, x)) by {
            if !refers(decls, mid, decls[to].name) {
                let x = choose|x: Seq<u8>| #[trigger]
                    refers(decls, mid, x) && reaches(decls, x, decls[to].name, (steps - 2) as nat);
                assert(refers(decls, mid, x));
            }
        }
        let x = choose|x: Seq<u8>| refers(decls, mid, x);
        let (m, k) = choose|m: int, k: int|
            0 <= m < decls.len() && 0 <= k < decls[m].fields.len() && decls[m].name == mid
                && mentions(#[trigger] decls[m].fields[k].ty, x);
        lemma_refers_edge(decls, from, m);
        assert(seen[m]);
        lemma_complete(decls, start, seen, m, to, (steps - 1) as nat);
    }
}

/// Whether the name stands in the type.
pub fn type_mentions(ty: &TypeRef, name: &[u8]) -> (r: bool)
    ensures
        r == mentions(ty@, name@),
    decreases ty,
{
    match ty {
        TypeRef::Primitive(_) => false,
        TypeRef::NamedType(n) => same_bytes(n.as_slice(), name),
        TypeRef::List(a) => type_mentions(a, name),
        TypeRef::Optional(a) => type_mentions(a, name),
        TypeRef::MapOf(k, v) => type_mentions(k, name) || type_mentions(v, name),
    }
}

fn decl_mentions(decls: &Vec<TypeDecl>, i: usize, name: &[u8]) -> (r: bool)
    requires
        i < decls.len(),
    ensures
        r == holds_name(views(decls@), i as int, name@),
{
    let d = &decls[i];
    let ghost dv = views(decls@);
    assert(dv[i as int] == d@);
    let mut k: usize = 0;
    while k < d.fields.len()
        invariant
            k <= d.fields.len(),
            i < decls.len(),
            dv == views(decls@),
            dv[i as int] == d@,
            forall|l: int| 0 <= l < k ==> !mentions(#[trigger] dv[i as int].fields[l].ty, name@),
        decreases d.fields.len() - k,
    {
        assert(dv[i as int].fields[k as int] == d.fields@[k as int]@);
        if type_mentions(&d.fields[k].ty, name) {
            assert(mentions(dv[i as int].fields[k as int].ty, name@));
            return true;
        }
        k += 1;
    }
    false
}

fn expand(
    decls: &Vec<TypeDecl>,
    start: usize,
    i: usize,
    seen: &mut Vec<bool>,
    stack: &mut Vec<usize>,
    count: &mut usize,
)
    requires
        distinct_names(names_of(views(decls@))),
        start < decls.len(),
        i < decls.len(),
        i == start || old(seen)@[i as int],
        sound(views(decls@), start as int, old(seen)@),
        pending(views(decls@), start as int, old(seen)@, old(stack)@.push(i)),
        *old(count) == marked(old(seen)@, decls.len() as int),
    ensures
        sound(views(decls@), start as int, final(seen)@),
        pending(views(decls@), start as int, final(seen)@, final(stack)@),
        *final(count) == marked(final(seen)@, decls.len() as int),
        *final(count) >= *old(count),
        final(stack)@.len() - old(stack)@.len() == *final(count) - *old(count),
{
    let ghost dv = views(decls@);
    let ghost n = decls.len() as int;
    let mut j: usize = 0;
    while j < decls.len()
        invariant
            j <= decls.len(),
            dv == views(decls@),
            n == decls.len(),
            distinct_names(names_of(dv)),
            start < n,
            i < n,
            i == start || seen@[i as int],
            sound(dv, start as int, seen@),
            pending(dv, start as int, seen@, stack@.push(i)),
            forall|l: int| 0 <= l < j && edge(dv, i as int, l) ==> #[trigger] seen@[l],
            *count == marked(seen@, n),
            *count >= *old(count),
            stack@.len() - old(stack)@.len() == *count - *old(count),
        decreases decls.len() - j,
    {
        assert(dv[j as int] == decls@[j as int]@);
        if !seen[j] && decl_mentions(decls, i, decls[j].name.as_slice()) {
            let ghost seen0 = seen@;
            let ghost stack0 = stack@;
            proof {
                lemma_marked_grows(seen0, j as int, n);
                lemma_marked_bound(seen0.update(j as int, true), n);
                lemma_refers_edge(dv, i as int, j as int);
                if i == start {
                    assert(reaches(dv, dv[start as int].name, dv[j as int].name, 1));
                } else {
                    let steps = choose|steps: nat|
                        reaches(dv, dv[start as int].name, dv[i as int].name, steps);
                    lemma_reaches_extend(
                        dv,
                        dv[start as int].name,
                        dv[i as int].name,
                        dv[j as int].name,
                        steps,
                    );
                }
            }
            seen.set(j, true);
            stack.push(j);
            *count = *count + 1;
            proof {
                assert(seen@ == seen0.update(j as int, true));
                assert forall|s: int| 0 <= s < stack@.push(i).len() implies (#[trigger] stack@.push(
                    i,
                )[s]) < dv.len() && (stack@.push(i)[s] == start || seen@[stack@.push(i)[s] as int]) by {
                    if s < stack0.len() {
                        assert(stack@.push(i)[s] == stack0.push(i)[s]);
                    } else if s == stack0.len() {
                        assert(stack@.push(i)[s] == j);
                    } else {
                        assert(stack@.push(i)[s] == i);
                        assert(stack0.push(i)[stack0.len() as int] == i);
                    }
                }
                assert forall|x: int| 0 <= x < dv.len() && (x == start || seen@[x]) implies #[trigger] expanded(
                    dv,
                    seen@,
                    x,
                ) || stack@.push(i).contains(x as usize) by {
                    if x == j {
                        assert(stack@.push(i)[stack0.len() as int] == j);
                    } else if expanded(dv, seen0, x) {
                        assert forall|y: int| 0 <= y < dv.len() && edge(dv, x, y) implies #[trigger] seen@[y] by {
                            assert(seen0[y]);
                        }
                    } else {
                        assert(stack0.push(i).contains(x as usize));
                        let s = choose|s: int|
                            0 <= s < stack0.push(i).len() && stack0.push(i)[s] == x as usize;
                        if s < stack0.len() {
                            assert(stack@.push(i)[s] == x as usize);
                        } else {
                            assert(stack@.push(i)[stack@.len() as int] == x as usize);
                        }
                    }
                }
            }
        }
        j += 1;
    }
    proof {
        assert(expanded(dv, seen@, i as int));
        assert forall|s: int| 0 <= s < stack@.len() implies (#[trigger] stack@[s]) < dv.len() && (
        stack@[s] == start || seen@[stack@[s] as int]) by {
            assert(stack@.push(i)[s] == stack@[s]);
        }
        assert forall|x: int| 0 <= x < dv.len() && (x == start || seen@[x]) implies #[trigger] expanded(
            dv,
            seen@,
            x,
        ) || stack@.contains(x as usize) by {
            if !expanded(dv, seen@, x) {
                let s = choose|s: int|
                    0 <= s < stack@.push(i).len() && stack@.push(i)[s] == x as usize;
                assert(s < stack@.len());
                assert(stack@[s] == x as usize);
            }
        }
    }
}

impl SymbolTable {
    /// For every declaration, whether the one at `start` leads to it
    /// through a chain of references.
    pub fn reachable_from(&self, start: usize) -> (r: Vec<bool>)
        requires
            start < self@.len(),
        ensures
            r.len() == self@.len(),
            forall|j: int|
                0 <= j < r.len() ==> #[trigger] r[j] == reachable(
                    self@,
                    self@[start as int].name,
                    self@[j].name,
                ),
    {
        let decls = self.decls();
        let ghost dv = views(decls@);
        let n = decls.len();
        let mut seen: Vec<bool> = Vec::new();
        let mut f: usize = 0;
        while f < n
            invariant
                f <= n,
                seen.len() == f,
                forall|j: int| 0 <= j < f ==> !seen@[j],
                marked(seen@, f as int) == 0,
            decreases n - f,
        {
            let ghost before = seen@;
            seen.push(false);
            proof {
                assert forall|m: int| 0 <= m <= f implies marked(seen@, m) == marked(before, m) by {
                    lemma_marked_same(before, seen@, m);
                }
            }
            f += 1;
        }
        let mut stack: Vec<usize> = Vec::new();
        stack.push(start);
        let mut count: usize = 0;
        proof {
            assert(stack@[0] == start);
        }
        while stack.len() > 0
            invariant
                dv == views(decls@),
                dv == self@,
                n == decls.len(),
                distinct_names(names_of(dv)),
                start < n,
                sound(dv, start as int, seen@),
                pending(dv, start as int, seen@, stack@),
                count == marked(seen@, n as int),
            decreases n - count, stack.len(),
        {
            let ghost stack0 = stack@;
            let i = stack.pop().unwrap();
            proof {
                assert(stack0 =~= stack@.push(i));
                assert(stack0[stack0.len() - 1] == i);
                lemma_marked_bound(seen@, n as int);
            }
            expand(decls, start, i, &mut seen, &mut stack, &mut count);
            proof {
                lemma_marked_bound(seen@, n as int);
            }
        }
        proof {
            assert(stack@ =~= Seq::<usize>::empty());
            assert forall|j: int| 0 <= j < seen.len() implies #[trigger] seen[j] == reachable(
                dv,
                dv[start as int].name,
                dv[j].name,
            ) by {
                if reachable(dv, dv[start as int].name, dv[j].name) {
                    let steps = choose|steps: nat|
                        reaches(dv, dv[start as int].name, dv[j].name, steps);
                    lemma_complete(dv, start as int, seen@, start as int, j, steps);
                }
            }
        }
        seen
    }

    /// Whether the declaration at `index` leads back to itself.
    pub fn is_recursive(&self, index: usize) -> (r: bool)
        requires
            index < self@.len(),
        ensures
            r == reachable(self@, self@[index as int].name, self@[index as int].name),
    {
        let seen = self.reachable_from(index);
        seen[index]
    }

    /// For every declaration, whether it leads back to itself.
    pub fn recursive_types(&self) -> (r: Vec<bool>)
        ensures
            r.len() == self@.len(),
            forall|i: int|
                0 <= i < r.len() ==> #[trigger] r[i] == reachable(self@, self@[i].name, self@[i].name),
    {
        let mut out: Vec<bool> = Vec::new();
        let mut i: usize = 0;
        while i < self.len()
            invariant
                i <= self@.len(),
                out.len() == i,
                forall|k: int|
                    0 <= k < i ==> #[trigger] out[k] == reachable(
                        self@,
                        self@[k].name,
                        self@[k].name,
                    ),
            decreases self@.len() - i,
        {
            out.push(self.is_recursive(i));
            i += 1;
        }
        out
    }
}

proof fn lemma_marked_same(a: Seq<bool>, b: Seq<bool>, n: int)
    requires
        0 <= n <= a.len(),
        n <= b.len(),
        forall|k: int| 0 <= k < n ==> a[k] == b[k],
    ensures
        marked(a, n) == marked(b, n),
    decreases n,
{
    if n > 0 {
        lemma_marked_same(a, b, n - 1);
    }
}

} // verus!
