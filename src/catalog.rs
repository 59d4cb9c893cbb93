//! A catalog of package records held in a vector sorted strictly by name, so
//! that each name occurs at most once. Its model is a map from name to record.
use vstd::prelude::*;
use vstd::string::*;
use crate::order::{lex_lt, lemma_lex_irreflexive, lemma_lex_total, lemma_lex_transitive, str_lt};
use crate::package::{Package, PackageView};

verus! {

pub open spec fn views(s: Seq<Package>) -> Seq<PackageView> {
    s.map_values(|p: Package| p@)
}

/// Names strictly increase along the sequence.
pub open spec fn sorted_by_name(s: Seq<PackageView>) -> bool {
    forall|i: int, j: int| 0 <= i < j < s.len() ==> lex_lt(#[trigger] s[i].name, #[trigger] s[j].name)
}

pub open spec fn has_name(s: Seq<PackageView>, n: Seq<char>) -> bool {
    exists|i: int| 0 <= i < s.len() && #[trigger] s[i].name == n
}

pub open spec fn index_of(s: Seq<PackageView>, n: Seq<char>) -> int {
    choose|i: int| 0 <= i < s.len() && #[trigger] s[i].name == n
}

/// The records of a catalog, keyed by name.
pub open spec fn to_map(s: Seq<PackageView>) -> Map<Seq<char>, PackageView> {
    Map::new(|n: Seq<char>| has_name(s, n), |n: Seq<char>| s[index_of(s, n)])
}

/// In a sorted catalog the record at each position is the one its name maps to.
pub proof fn lemma_to_map_entry(s: Seq<PackageView>, i: int)
    requires
        sorted_by_name(s),
        0 <= i < s.len(),
    ensures
        to_map(s).contains_key(s[i].name),
        to_map(s)[s[i].name] == s[i],
{
    assert(has_name(s, s[i].name));
    let k = index_of(s, s[i].name);
    if k != i {
        lemma_lex_irreflexive(s[i].name);
        if k < i {
            assert(lex_lt(s[k].name, s[i].name));
        } else {
            assert(lex_lt(s[i].name, s[k].name));
        }
    }
}

pub proof fn lemma_to_map_all(s: Seq<PackageView>)
    requires
        sorted_by_name(s),
    ensures
        forall|i: int| 0 <= i < s.len() ==> #[trigger] to_map(s).contains_key(s[i].name) && to_map(s)[s[i].name] == s[i],
        forall|n: Seq<char>| #[trigger] to_map(s).contains_key(n) <==> has_name(s, n),
        forall|n: Seq<char>| #[trigger] to_map(s).contains_key(n) ==> to_map(s)[n].name == n,
{
    assert forall|n: Seq<char>| #[trigger] to_map(s).contains_key(n) implies to_map(s)[n].name == n by {
        assert(has_name(s, n));
        assert(s[index_of(s, n)].name == n);
    }
    assert forall|i: int| 0 <= i < s.len() implies #[trigger] to_map(s).contains_key(s[i].name) && to_map(s)[s[i].name] == s[i] by {
        lemma_to_map_entry(s, i);
    }
}

/// A sorted catalog holds a record exactly when its name maps to it.
pub proof fn lemma_contains_iff_mapped(s: Seq<PackageView>)
    requires
        sorted_by_name(s),
    ensures
        forall|pv: PackageView| #[trigger] s.contains(pv) <==> (to_map(s).contains_key(pv.name) && to_map(s)[pv.name] == pv),
{
    lemma_to_map_all(s);
    assert forall|pv: PackageView| to_map(s).contains_key(pv.name) && to_map(s)[pv.name] == pv implies #[trigger] s.contains(pv) by {
        assert(has_name(s, pv.name));
        let k = index_of(s, pv.name);
        assert(to_map(s)[pv.name] == s[k]);
        assert(s[k] == pv);
    }
}

pub proof fn lemma_push_contains(s: Seq<PackageView>, x: PackageView)
    ensures
        forall|pv: PackageView| #[trigger] s.push(x).contains(pv) <==> (s.contains(pv) || pv == x),
{
    assert forall|pv: PackageView| #[trigger] s.push(x).contains(pv) <==> (s.contains(pv) || pv == x) by {
        if s.contains(pv) {
            let k = choose|k: int| 0 <= k < s.len() && s[k] == pv;
            assert(s.push(x)[k] == pv);
        }
        if pv == x {
            assert(s.push(x)[s.len() as int] == pv);
        }
        if s.push(x).contains(pv) && pv != x {
            let k = choose|k: int| 0 <= k < s.len() + 1 && s.push(x)[k] == pv;
            assert(s[k] == pv);
        }
    }
}

/// Compares two strings for equality, character by character.
pub fn str_eq(a: &str, b: &str) -> (r: bool)
    ensures
        r == (a@ == b@),
{
    let la = a.unicode_len();
    let lb = b.unicode_len();
    if la != lb {
        return false;
    }
    let mut i: usize = 0;
    while i < la
        invariant
            la == a@.len(),
            lb == b@.len(),
            la == lb,
            i <= la,
            forall|k: int| 0 <= k < i ==> a@[k] == b@[k],
        decreases la - i,
    {
        if a.get_char(i) != b.get_char(i) {
            return false;
        }
        i = i + 1;
    }
    assert(a@ =~= b@);
    true
}

/// The position of the record named `name`, if there is one.
pub fn find(v: &Vec<Package>, name: &str) -> (r: Option<usize>)
    ensures
        match r {
            Some(i) => i < v@.len() && v@[i as int].name@ == name@,
            None => !has_name(views(v@), name@),
        },
{
    let mut i: usize = 0;
    while i < v.len()
        invariant
            i <= v@.len(),
            forall|k: int| 0 <= k < i ==> v@[k].name@ != name@,
        decreases v@.len() - i,
    {
        if str_eq(v[i].name.as_str(), name) {
            return Some(i);
        }
        i = i + 1;
    }
    assert forall|k: int| 0 <= k < views(v@).len() implies #[trigger] views(v@)[k].name != name@ by {
        assert(views(v@)[k] == v@[k]@);
    }
    None
}

/// The position at which a record named `name` stands or would stand: every
/// name before it is smaller.
fn position(v: &Vec<Package>, name: &str) -> (r: usize)
    requires
        sorted_by_name(views(v@)),
    ensures
        r <= v@.len(),
        forall|k: int| 0 <= k < r ==> lex_lt(#[trigger] v@[k].name@, name@),
        r < v@.len() ==> !lex_lt(v@[r as int].name@, name@),
{
    let mut i: usize = 0;
    while i < v.len() && str_lt(v[i].name.as_str(), name)
        invariant
            i <= v@.len(),
            forall|k: int| 0 <= k < i ==> lex_lt(#[trigger] v@[k].name@, name@),
        decreases v@.len() - i,
    {
        i = i + 1;
    }
    i
}

/// Records `p` under its name, replacing a record of that name if there is one.
pub fn upsert(v: &mut Vec<Package>, p: Package)
    requires
        sorted_by_name(views(old(v)@)),
    ensures
        sorted_by_name(views(final(v)@)),
        to_map(views(final(v)@)) == to_map(views(old(v)@)).insert(p@.name, p@),
{
    let ghost s = views(v@);
    let ghost pv = p@;
    let i = position(v, p.name.as_str());
    proof {
        lemma_to_map_all(s);
        assert forall|k: int| 0 <= k < i implies lex_lt(#[trigger] s[k].name, pv.name) by {
            assert(s[k] == v@[k]@);
        }
    }
    if i < v.len() && str_eq(v[i].name.as_str(), p.name.as_str()) {
        proof {
            assert(s[i as int] == v@[i as int]@);
        }
        v.set(i, p);
        proof {
            let t = views(v@);
            assert(t =~= s.update(i as int, pv));
            assert forall|a: int, b: int| 0 <= a < b < t.len() implies lex_lt(#[trigger] t[a].name, #[trigger] t[b].name) by {
                assert(t[a].name == s[a].name && t[b].name == s[b].name);
            }
            lemma_to_map_all(t);
            assert(to_map(t) =~= to_map(s).insert(pv.name, pv)) by {
                assert forall|n: Seq<char>| #[trigger] to_map(s).insert(pv.name, pv).contains_key(n) implies
                    to_map(t).contains_key(n) && to_map(t)[n] == to_map(s).insert(pv.name, pv)[n] by {
                    if n != pv.name {
                        let k = index_of(s, n);
                        assert(t[k] == s[k]);
                    } else {
                        assert(t[i as int] == pv);
                    }
                }
                assert forall|n: Seq<char>| #[trigger] to_map(t).contains_key(n) implies
                    to_map(s).insert(pv.name, pv).contains_key(n) by {
                    let k = index_of(t, n);
                    if k != i {
                        assert(s[k] == t[k]);
                    }
                }
            }
        }
    } else {
        proof {
            if i < s.len() {
                assert(s[i as int] == v@[i as int]@);
                lemma_lex_total(s[i as int].name, pv.name);
                assert forall|j: int| i <= j < s.len() implies lex_lt(pv.name, #[trigger] s[j].name) by {
                    if j > i {
                        lemma_lex_transitive(pv.name, s[i as int].name, s[j].name);
                    }
                }
            }
        }
        v.insert(i, p);
        proof {
            let t = views(v@);
            assert(t =~= s.insert(i as int, pv));
            assert forall|a: int, b: int| 0 <= a < b < t.len() implies lex_lt(#[trigger] t[a].name, #[trigger] t[b].name) by {
                if a < i && b > i {
                    lemma_lex_transitive(t[a].name, pv.name, t[b].name);
                }
            }
            lemma_to_map_all(t);
            assert(to_map(t) =~= to_map(s).insert(pv.name, pv)) by {
                assert forall|n: Seq<char>| #[trigger] to_map(s).insert(pv.name, pv).contains_key(n) implies
                    to_map(t).contains_key(n) && to_map(t)[n] == to_map(s).insert(pv.name, pv)[n] by {
                    if n != pv.name {
                        assert(has_name(s, n));
                        let k = index_of(s, n);
                        assert(to_map(s)[n] == s[k]);
                        if k < i {
                            assert(t[k] == s[k]);
                            lemma_to_map_entry(t, k);
                        } else {
                            assert(t[k + 1] == s[k]);
                            lemma_to_map_entry(t, k + 1);
                        }
                    } else {
                        assert(t[i as int] == pv);
                    }
                }
                assert forall|n: Seq<char>| #[trigger] to_map(t).contains_key(n) implies
                    to_map(s).insert(pv.name, pv).contains_key(n) by {
                    let k = index_of(t, n);
                    if k < i {
                        assert(s[k] == t[k]);
                    } else if k > i {
                        assert(s[k - 1] == t[k]);
                    }
                }
            }
        }
    }
}

/// Takes the record named `name` out of the catalog, if there is one.
pub fn remove_named(v: &mut Vec<Package>, name: &str) -> (r: Option<Package>)
    requires
        sorted_by_name(views(old(v)@)),
    ensures
        sorted_by_name(views(final(v)@)),
        match r {
            Some(p) => to_map(views(old(v)@)).contains_key(name@)
                && p@ == to_map(views(old(v)@))[name@]
                && to_map(views(final(v)@)) == to_map(views(old(v)@)).remove(name@),
            None => !to_map(views(old(v)@)).contains_key(name@) && final(v)@ == old(v)@,
        },
{
    let ghost s = views(v@);
    proof {
        lemma_to_map_all(s);
    }
    match find(v, name) {
        None => None,
        Some(i) => {
            proof {
                assert(s[i as int] == v@[i as int]@);
                assert(to_map(s).contains_key(s[i as int].name));
            }
            let p = v.remove(i);
            proof {
                assert(p@ == s[i as int]);
                let t = views(v@);
                assert(t =~= s.remove(i as int));
                assert forall|a: int, b: int| 0 <= a < b < t.len() implies lex_lt(#[trigger] t[a].name, #[trigger] t[b].name) by {
                    if a < i && b >= i {
                        assert(t[b] == s[b + 1]);
                    } else if a >= i {
                        assert(t[a] == s[a + 1] && t[b] == s[b + 1]);
                    }
                }
                lemma_to_map_all(t);
                assert(to_map(t) =~= to_map(s).remove(name@)) by {
                    assert forall|n: Seq<char>| #[trigger] to_map(s).remove(name@).contains_key(n) implies
                        to_map(t).contains_key(n) && to_map(t)[n] == to_map(s)[n] by {
                        let k = index_of(s, n);
                        if k < i {
                            assert(t[k] == s[k]);
                        } else {
                            assert(k != i);
                            assert(t[k - 1] == s[k]);
                        }
                    }
                    assert forall|n: Seq<char>| #[trigger] to_map(t).contains_key(n) implies
                        to_map(s).remove(name@).contains_key(n) by {
                        let k = index_of(t, n);
                        if k < i {
                            assert(s[k] == t[k]);
                        } else {
                            assert(s[k + 1] == t[k]);
                        }
                        lemma_lex_irreflexive(name@);
                        if k < i {
                            assert(lex_lt(s[k].name, s[i as int].name));
                        } else {
                            assert(lex_lt(s[i as int].name, s[k + 1].name));
                        }
                    }
                }
            }
            Some(p)
        },
    }
}

} // verus!
