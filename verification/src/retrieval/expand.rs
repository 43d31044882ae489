//! Graph expansion bookkeeping: interning entity ids to small integers, and
//! reading a path back out of the arena of chain nodes the walk records.
use vstd::prelude::*;
use crate::text::str_eq;

verus! {

/// Interning `s` into `names`: a name already there keeps its index; a new
/// one is appended and takes the next index.
pub open spec fn interned(names: Seq<Seq<char>>, s: Seq<char>) -> (Seq<Seq<char>>, int) {
    if names.contains(s) {
        (names, names.index_of(s))
    } else {
        (names.push(s), names.len() as int)
    }
}

/// Reading back what was interned gives the name, and interning the same
/// name again changes nothing and gives the same index.
pub proof fn lemma_intern_round_trip(names: Seq<Seq<char>>, s: Seq<char>)
    requires
        names.no_duplicates(),
    ensures
        ({
            let (after, i) = interned(names, s);
            &&& 0 <= i < after.len()
            &&& after[i] == s
            &&& after.no_duplicates()
            &&& interned(after, s) == (after, i)
        }),
{
    let (after, i) = interned(names, s);
    if names.contains(s) {
        let k = names.index_of(s);
        assert(0 <= k < names.len() && names[k] == s);
    } else {
        assert(after[names.len() as int] == s);
        assert(after.contains(s));
        let k = after.index_of(s);
        assert(0 <= k < after.len() && after[k] == s);
        if k < names.len() {
            assert(names[k] == s);
        }
    }
}

/// Entity ids interned to dense indices, in first-seen order.
pub struct Interner {
    names: Vec<String>,
}

impl Interner {
    #[verifier::type_invariant]
    spec fn distinct(self) -> bool {
        &&& self.names@.map_values(|s: String| s@).no_duplicates()
        &&& self.names@.len() <= u32::MAX
    }

    /// The interned names, by index.
    pub closed spec fn names(self) -> Seq<Seq<char>> {
        self.names@.map_values(|s: String| s@)
    }

    /// An interner holding nothing.
    pub fn new() -> (r: Self)
        ensures
            r.names() == Seq::<Seq<char>>::empty(),
            r.names().no_duplicates(),
    {
        let names: Vec<String> = Vec::new();
        assert(names@.map_values(|s: String| s@) =~= Seq::<Seq<char>>::empty());
        Interner { names }
    }

    /// How many names are interned.
    pub fn len(&self) -> (r: usize)
        ensures
            r == self.names().len(),
    {
        self.names.len()
    }

    /// The index of `s`, interning it first when it is new: a name seen
    /// before keeps its index, a new one takes the next.
    pub fn intern(&mut self, s: &str) -> (r: u32)
        requires
            old(self).names().len() < u32::MAX,
        ensures
            (final(self).names(), r as int) == interned(old(self).names(), s@),
            final(self).names().no_duplicates(),
    {
        proof {
            use_type_invariant(&*self);
        }
        let n = self.names.len();
        let mut i: usize = 0;
        while i < n
            invariant
                n == self.names@.len(),
                n < u32::MAX,
                i <= n,
                self.names().no_duplicates(),
                self.names().len() == n,
                forall|j: int| 0 <= j < i ==> self.names()[j] != s@,
            decreases n - i,
        {
            if str_eq(self.names[i].as_str(), s) {
                proof {
                    let v = self.names();
                    assert(v[i as int] == s@);
                    assert(v.contains(s@));
                    let k = v.index_of(s@);
                    assert(0 <= k < v.len() && v[k] == s@);
                }
                return i as u32;
            }
            i = i + 1;
        }
        let ghost before = self.names();
        proof {
            assert(!before.contains(s@));
        }
        let mut names: Vec<String> = Vec::new();
        std::mem::swap(&mut names, &mut self.names);
        names.push(String::from_str(s));
        proof {
            assert(names@.map_values(|x: String| x@) =~= before.push(s@));
        }
        self.names = names;
        n as u32
    }

    /// The name interned at `i`.
    pub fn name(&self, i: u32) -> (r: &str)
        requires
            i < self.names().len(),
        ensures
            r@ == self.names()[i as int],
    {
        self.names[i as usize].as_str()
    }

    /// An owned copy of the name interned at `i`, so the caller can keep
    /// interning while holding it.
    pub fn name_rc(&self, i: u32) -> (r: String)
        requires
            i < self.names().len(),
        ensures
            r@ == self.names()[i as int],
    {
        self.names[i as usize].clone()
    }
}

/// A step of a recorded path: the entity reached (by interned index), the
/// edge taken to reach it (empty for a seed) and the step it came from
/// (`NO_PARENT` for a seed).
pub struct ChainNode<'g> {
    pub ent: u32,
    pub rid: &'g str,
    pub parent: u32,
}

/// The parent of a seed step.
pub const NO_PARENT: u32 = 4294967295u32;

/// Every step's parent was recorded before it, and names an interned entity.
pub open spec fn arena_ok(arena: Seq<ChainNode>, names: Seq<Seq<char>>) -> bool {
    forall|i: int|
        0 <= i < arena.len() ==> {
            &&& (#[trigger] arena[i]).ent < names.len()
            &&& (arena[i].parent == NO_PARENT || arena[i].parent < i)
        }
}

/// The path ending at step `node`, from its seed: entity, edge, entity, …,
/// edge, entity.
pub open spec fn chain_at(arena: Seq<ChainNode>, names: Seq<Seq<char>>, node: int) -> Seq<Seq<char>>
    decreases node,
{
    if 0 <= node < arena.len() {
        let n = arena[node];
        if n.parent == NO_PARENT || n.parent >= node {
            seq![names[n.ent as int]]
        } else {
            chain_at(arena, names, n.parent as int) + seq![n.rid@, names[n.ent as int]]
        }
    } else {
        Seq::empty()
    }
}

/// The path recorded at `node`, read back from the arena: the names and edge
/// ids from its seed to the node.
pub fn materialize_chain(arena: &[ChainNode], interner: &Interner, node: u32) -> (r: Vec<String>)
    requires
        arena_ok(arena@, interner.names()),
        node < arena@.len(),
    ensures
        r@.map_values(|s: String| s@) == chain_at(arena@, interner.names(), node as int),
{
    // Walk to the seed, collecting back to front.
    let mut back: Vec<String> = Vec::new();
    let mut cur = node;
    let ghost names = interner.names();
    let ghost path = chain_at(arena@, names, node as int);
    assert(back@.map_values(|s: String| s@).reverse() =~= Seq::<Seq<char>>::empty());
    assert(path + Seq::<Seq<char>>::empty() =~= path);
    loop
        invariant_except_break
            arena_ok(arena@, names),
            names == interner.names(),
            cur < arena@.len(),
            chain_at(arena@, names, cur as int) + back@.map_values(|s: String| s@).reverse() == path,
        ensures
            back@.map_values(|s: String| s@).reverse() == path,
        decreases cur,
    {
        let n = &arena[cur as usize];
        let ghost bv = back@.map_values(|s: String| s@);
        let ghost rest = chain_at(arena@, names, cur as int);
        proof {
            assert(arena@[cur as int] == *n);
        }
        back.push(interner.name_rc(n.ent));
        if n.parent == NO_PARENT {
            proof {
                assert(back@.map_values(|s: String| s@) =~= bv.push(names[n.ent as int]));
                assert(bv.push(names[n.ent as int]).reverse() =~= seq![names[n.ent as int]] + bv.reverse());
                assert(rest =~= seq![names[n.ent as int]]);
            }
            break;
        }
        back.push(String::from_str(n.rid));
        let p = n.parent;
        proof {
            let up = chain_at(arena@, names, p as int);
            assert(rest == up + seq![n.rid@, names[n.ent as int]]);
            let nb = bv.push(names[n.ent as int]).push(n.rid@);
            assert(back@.map_values(|s: String| s@) =~= nb);
            assert(nb.reverse() =~= seq![n.rid@, names[n.ent as int]] + bv.reverse());
            assert(up + nb.reverse() =~= rest + bv.reverse());
        }
        cur = p;
    }
    // `back` holds the path reversed; turn it round.
    let mut out: Vec<String> = Vec::new();
    let mut k = back.len();
    while k > 0
        invariant
            k <= back@.len(),
            back@.map_values(|s: String| s@).reverse() == path,
            out@.map_values(|s: String| s@) == path.take((back@.len() - k) as int),
        decreases k,
    {
        k = k - 1;
        let ghost before = out@.map_values(|s: String| s@);
        let c = back[k].clone();
        out.push(c);
        proof {
            let bv = back@.map_values(|s: String| s@);
            assert(bv.reverse()[(back@.len() - k - 1) as int] == bv[k as int]);
            assert(path[(back@.len() - k - 1) as int] == c@);
            assert(out@.map_values(|s: String| s@) =~= before.push(c@));
            assert(path.take((back@.len() - k) as int) =~= path.take((back@.len() - k - 1) as int).push(path[(back@.len() - k - 1) as int]));
        }
    }
    assert(path.take(back@.len() as int) =~= path);
    out
}

} // verus!
