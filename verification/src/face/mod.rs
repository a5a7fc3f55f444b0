//! Who asks: the engine's callers, and the names their requests go under.
use vstd::prelude::*;
use crate::text::{decimal, own, push_str, show_int};

use crate::query::{Bag, Pack};

pub mod stash;

verus! {

/// The caller of a request.
#[derive(Clone, Copy, Debug, PartialEq, Eq, Structural)]
pub enum Who {
    /// The holder of the sudo token.
    Sudo,
    /// An operator, by row key.
    Op(i64),
    /// Nobody in particular.
    Anon,
}

/// The name a caller goes under.
pub open spec fn label_of(who: Who) -> Seq<char> {
    match who {
        Who::Sudo => "sudo"@,
        Who::Anon => "anon"@,
        Who::Op(id) => decimal(id as int),
    }
}

/// The name a caller goes under.
pub fn label(who: Who) -> (r: String)
    ensures
        r@ == label_of(who),
{
    match who {
        Who::Sudo => own("sudo"),
        Who::Anon => own("anon"),
        Who::Op(id) => show_int(id),
    }
}

/// The name of bond `bond` of `unit`.
pub open spec fn lane_of(unit: Seq<char>, bond: Seq<char>) -> Seq<char> {
    unit + "."@ + bond
}

/// The name of bond `bond` of `unit`.
pub fn lane(unit: &str, bond: &str) -> (r: String)
    ensures
        r@ == lane_of(unit@, bond@),
{
    let mut s = own(unit);
    push_str(&mut s, ".");
    push_str(&mut s, bond);
    s
}

/// Some row or tie of bag `b` expires at `at`.
pub open spec fn bag_expires(b: Bag, at: i64) -> bool {
    match b {
        Bag::Unit(v) => exists|j: int| 0 <= j < v@.len() && #[trigger] v@[j].expiry() == Some(at),
        Bag::Bond(v) => exists|j: int| 0 <= j < v@.len() && #[trigger] v@[j].expiry() == Some(at),
    }
}

/// Some row or tie of the first `n` bags expires at `at`.
pub open spec fn bags_expire(bags: Seq<(String, Bag)>, n: int, at: i64) -> bool {
    exists|i: int| 0 <= i < n && #[trigger] bag_expires(bags[i].1, at)
}

/// The earliest expiry among the rows and ties of bag `b`, folded into
/// `edge`.
fn fold_bag(b: &Bag, edge: Option<i64>) -> (r: Option<i64>)
    ensures
        match r {
            None => edge is None && forall|at: i64| !bag_expires(*b, at),
            Some(m) => (edge == Some(m) || bag_expires(*b, m))
                && (edge matches Some(e) ==> m <= e)
                && forall|at: i64| bag_expires(*b, at) ==> m <= at,
        },
{
    let mut acc = edge;
    match b {
        Bag::Unit(rows) => {
            let mut j: usize = 0;
            while j < rows.len()
                invariant
                    j <= rows@.len(),
                    match acc {
                        None => edge is None && forall|k: int| 0 <= k < j ==> rows@[k].expiry() is None,
                        Some(m) => (edge == Some(m) || exists|k: int| 0 <= k < j && #[trigger] rows@[k].expiry() == Some(m))
                            && (edge matches Some(e) ==> m <= e)
                            && forall|k: int| 0 <= k < j ==> (#[trigger] rows@[k].expiry() matches Some(a) ==> m <= a),
                    },
                decreases rows@.len() - j,
            {
                match rows[j].expires() {
                    Some(at) => {
                        acc = match acc {
                            None => Some(at),
                            Some(m) => if at < m { Some(at) } else { Some(m) },
                        };
                    },
                    None => {},
                }
                j = j + 1;
            }
            proof {
                assert forall|at: i64| bag_expires(*b, at) implies (acc matches Some(m) && m <= at) by {
                    let k = choose|k: int| 0 <= k < rows@.len() && #[trigger] rows@[k].expiry() == Some(at);
                    assert(rows@[k].expiry() == Some(at));
                }
            }
        },
        Bag::Bond(ties) => {
            let mut j: usize = 0;
            while j < ties.len()
                invariant
                    j <= ties@.len(),
                    match acc {
                        None => edge is None && forall|k: int| 0 <= k < j ==> ties@[k].expiry() is None,
                        Some(m) => (edge == Some(m) || exists|k: int| 0 <= k < j && #[trigger] ties@[k].expiry() == Some(m))
                            && (edge matches Some(e) ==> m <= e)
                            && forall|k: int| 0 <= k < j ==> (#[trigger] ties@[k].expiry() matches Some(a) ==> m <= a),
                    },
                decreases ties@.len() - j,
            {
                match ties[j].expires() {
                    Some(at) => {
                        acc = match acc {
                            None => Some(at),
                            Some(m) => if at < m { Some(at) } else { Some(m) },
                        };
                    },
                    None => {},
                }
                j = j + 1;
            }
            proof {
                assert forall|at: i64| bag_expires(*b, at) implies (acc matches Some(m) && m <= at) by {
                    let k = choose|k: int| 0 <= k < ties@.len() && #[trigger] ties@[k].expiry() == Some(at);
                    assert(ties@[k].expiry() == Some(at));
                }
            }
        },
    }
    acc
}

/// `r` is the earliest expiry among the rows and ties of `p`.
pub open spec fn is_horizon(p: Pack, r: Option<i64>) -> bool {
    match r {
        None => forall|at: i64| !bags_expire(p.bag_list(), p.bag_list().len() as int, at),
        Some(m) => bags_expire(p.bag_list(), p.bag_list().len() as int, m)
            && forall|at: i64| bags_expire(p.bag_list(), p.bag_list().len() as int, at) ==> m <= at,
    }
}

/// The earliest expiry among the rows and ties of a pack: an answer held
/// for reuse is good until then.
pub fn horizon(pack: &Pack) -> (r: Option<i64>)
    ensures
        is_horizon(*pack, r),
{
    let bags = pack.bags();
    let ghost bl = pack.bag_list();
    let mut edge: Option<i64> = None;
    let mut i: usize = 0;
    while i < bags.len()
        invariant
            i <= bags@.len(),
            bags@ == bl,
            match edge {
                None => forall|at: i64| !bags_expire(bl, i as int, at),
                Some(m) => bags_expire(bl, i as int, m) && forall|at: i64| bags_expire(bl, i as int, at) ==> m <= at,
            },
        decreases bags@.len() - i,
    {
        let before = edge;
        edge = fold_bag(&bags[i].1, edge);
        proof {
            assert forall|at: i64| bags_expire(bl, i + 1, at) <==> (bags_expire(bl, i as int, at) || bag_expires(bl[i as int].1, at)) by {
                if bags_expire(bl, i + 1, at) {
                    let k = choose|k: int| 0 <= k < i + 1 && #[trigger] bag_expires(bl[k].1, at);
                    if k < i {
                        assert(bags_expire(bl, i as int, at));
                    }
                }
                if bags_expire(bl, i as int, at) {
                    let k = choose|k: int| 0 <= k < i && #[trigger] bag_expires(bl[k].1, at);
                    assert(bag_expires(bl[k].1, at));
                }
                if bag_expires(bl[i as int].1, at) {
                    assert(bag_expires(bl[i as int].1, at));
                }
            }
            match edge {
                None => {
                    assert forall|at: i64| !#[trigger] bags_expire(bl, i + 1, at) by {
                        assert(!bag_expires(bl[i as int].1, at));
                        assert(!bags_expire(bl, i as int, at));
                    }
                },
                Some(m) => {
                    if before == Some(m) {
                        assert(bags_expire(bl, i as int, m));
                    } else {
                        assert(bag_expires(bl[i as int].1, m));
                    }
                    assert(bags_expire(bl, i + 1, m));
                    assert forall|at: i64| #[trigger] bags_expire(bl, i + 1, at) implies m <= at by {
                        if bags_expire(bl, i as int, at) {
                            assert(before is Some);
                        }
                    }
                },
            }
        }
        i = i + 1;
    }
    edge
}

} // verus!
