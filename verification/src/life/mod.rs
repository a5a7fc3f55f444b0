//! Live data: cells, rows and ties as the engine reads them back.
use vstd::prelude::*;
use crate::text::{own, same};

pub mod util;
pub mod closure;
pub mod glean;
pub mod edit;
pub mod weave;
pub mod etch;
pub mod write;
pub mod flow;

verus! {

/// One stored value.
#[derive(Debug)]
pub enum Cell {
    Bool(bool),
    Int(i64),
    Text(String),
}

/// The content of a cell.
pub enum CellV {
    Bool(bool),
    Int(i64),
    Text(Seq<char>),
}

impl View for Cell {
    type V = CellV;

    open spec fn view(&self) -> CellV {
        match self {
            Cell::Bool(b) => CellV::Bool(*b),
            Cell::Int(n) => CellV::Int(*n),
            Cell::Text(s) => CellV::Text(s@),
        }
    }
}

/// The text a cell shows (`Cell::show`).
pub open spec fn shown(c: CellV) -> Seq<char> {
    match c {
        CellV::Text(s) => s,
        CellV::Int(n) => crate::text::decimal(n as int),
        CellV::Bool(b) => crate::text::flag_text(b),
    }
}

/// The text of a text cell, empty for others (`Cell::text`).
pub open spec fn text_of(c: CellV) -> Seq<char> {
    match c {
        CellV::Text(s) => s,
        _ => Seq::empty(),
    }
}

impl Cell {
    /// The text of a text cell; empty for other cells.
    pub fn text(&self) -> (r: &str)
        ensures
            r@ == text_of(self@),
    {
        proof {
            reveal_strlit("");
        }
        match self {
            Cell::Text(value) => value.as_str(),
            _ => "",
        }
    }

    /// The cell written as text.
    pub fn show(&self) -> (r: String)
        ensures
            r@ == shown(self@),
    {
        match self {
            Cell::Text(value) => value.clone(),
            Cell::Int(value) => crate::text::show_int(*value),
            Cell::Bool(value) => crate::text::show_flag(*value),
        }
    }

    /// A copy of the cell.
    pub fn dup(&self) -> (r: Cell)
        ensures
            r@ == self@,
    {
        match self {
            Cell::Text(value) => Cell::Text(value.clone()),
            Cell::Int(value) => Cell::Int(*value),
            Cell::Bool(value) => Cell::Bool(*value),
        }
    }
}

/// Named cells, each name once.
pub type Cells = Vec<(String, Cell)>;

/// The content of named cells.
pub open spec fn cells_view(c: Seq<(String, Cell)>) -> Seq<(Seq<char>, CellV)> {
    c.map_values(|e: (String, Cell)| (e.0@, e.1@))
}

/// No name occurs twice.
pub open spec fn distinct(c: Seq<(Seq<char>, CellV)>) -> bool {
    forall|i: int, j: int| 0 <= i < j < c.len() ==> c[i].0 != c[j].0
}

/// The cell stored under `name`.
pub open spec fn lookup(c: Seq<(Seq<char>, CellV)>, name: Seq<char>) -> Option<CellV> {
    if exists|i: int| 0 <= i < c.len() && c[i].0 == name {
        Some(c[choose|i: int| 0 <= i < c.len() && c[i].0 == name].1)
    } else {
        None
    }
}

proof fn lemma_lookup_at(c: Seq<(Seq<char>, CellV)>, i: int)
    requires
        distinct(c),
        0 <= i < c.len(),
    ensures
        lookup(c, c[i].0) == Some(c[i].1),
{
    let j = choose|j: int| 0 <= j < c.len() && c[j].0 == c[i].0;
    if j != i {
        if j < i {
            assert(c[j].0 != c[i].0);
        } else {
            assert(c[i].0 != c[j].0);
        }
    }
}

/// Position of `name` among named cells.
pub fn seat_of(cells: &[(String, Cell)], name: &str) -> (r: Option<usize>)
    ensures
        match r {
            Some(i) => i < cells@.len() && cells@[i as int].0@ == name@,
            None => forall|i: int| 0 <= i < cells@.len() ==> cells@[i].0@ != name@,
        },
{
    let mut i: usize = 0;
    while i < cells.len()
        invariant
            i <= cells@.len(),
            forall|j: int| 0 <= j < i ==> cells@[j].0@ != name@,
        decreases cells@.len() - i,
    {
        if same(cells[i].0.as_str(), name) {
            return Some(i);
        }
        i = i + 1;
    }
    None
}

/// The cell stored under `name`, if any.
pub fn get_cell<'a>(cells: &'a [(String, Cell)], name: &str) -> (r: Option<&'a Cell>)
    requires
        distinct(cells_view(cells@)),
    ensures
        match r {
            Some(c) => lookup(cells_view(cells@), name@) == Some(c@),
            None => lookup(cells_view(cells@), name@) is None,
        },
{
    match seat_of(cells, name) {
        Some(i) => {
            proof {
                lemma_lookup_at(cells_view(cells@), i as int);
            }
            Some(&cells[i].1)
        },
        None => {
            assert(!exists|i: int|
                0 <= i < cells_view(cells@).len() && cells_view(cells@)[i].0 == name@) by {
                assert forall|i: int| 0 <= i < cells_view(cells@).len() implies cells_view(
                    cells@,
                )[i].0 != name@ by {
                    assert(cells@[i].0@ != name@);
                }
            }
            None
        },
    }
}

/// `cells` with `name` set to `cell`, replacing an old value in place or
/// adding it last (a map insert).
pub open spec fn placed(c: Seq<(Seq<char>, CellV)>, name: Seq<char>, cell: CellV) -> Seq<
    (Seq<char>, CellV),
> {
    if exists|i: int| 0 <= i < c.len() && c[i].0 == name {
        c.update(choose|i: int| 0 <= i < c.len() && c[i].0 == name, (name, cell))
    } else {
        c.push((name, cell))
    }
}

/// `cells` without `name` (a map remove).
pub open spec fn dropped(c: Seq<(Seq<char>, CellV)>, name: Seq<char>) -> Seq<(Seq<char>, CellV)>
    decreases c.len(),
{
    if c.len() == 0 {
        c
    } else {
        let r = dropped(c.drop_last(), name);
        if c.last().0 == name {
            r
        } else {
            r.push(c.last())
        }
    }
}

proof fn lemma_dropped_from(c: Seq<(Seq<char>, CellV)>, name: Seq<char>)
    ensures
        forall|j: int| 0 <= j < dropped(c, name).len() ==> exists|i: int|
            0 <= i < c.len() && c[i] == #[trigger] dropped(c, name)[j],
    decreases c.len(),
{
    if c.len() > 0 {
        let p = c.drop_last();
        lemma_dropped_from(p, name);
        let r = dropped(p, name);
        let d = dropped(c, name);
        assert forall|j: int| 0 <= j < d.len() implies exists|i: int|
            0 <= i < c.len() && c[i] == #[trigger] d[j] by {
            if j < r.len() {
                assert(d[j] == r[j]);
                let i = choose|i: int| 0 <= i < p.len() && p[i] == r[j];
                assert(c[i] == p[i]);
            } else {
                assert(d[j] == c[c.len() - 1]);
            }
        }
    }
}

proof fn lemma_dropped(c: Seq<(Seq<char>, CellV)>, name: Seq<char>)
    requires
        distinct(c),
    ensures
        distinct(dropped(c, name)),
    decreases c.len(),
{
    if c.len() > 0 {
        let p = c.drop_last();
        assert(distinct(p)) by {
            assert forall|a: int, b: int| 0 <= a < b < p.len() implies p[a].0 != p[b].0 by {
                assert(p[a] == c[a] && p[b] == c[b]);
            }
        }
        lemma_dropped(p, name);
        lemma_dropped_from(p, name);
        let r = dropped(p, name);
        if c.last().0 != name {
            let q = r.push(c.last());
            assert(dropped(c, name) == q);
            assert forall|a: int, b: int| 0 <= a < b < q.len() implies q[a].0 != q[b].0 by {
                if b == r.len() {
                    assert(q[a] == r[a]);
                    let i = choose|i: int| 0 <= i < p.len() && p[i] == r[a];
                    assert(c[i] == p[i]);
                    assert(c[i].0 != c[c.len() - 1].0);
                } else {
                    assert(q[a] == r[a] && q[b] == r[b]);
                }
            }
        }
    }
}

/// With distinct names, a name maps to a cell exactly when the pair is
/// held, and to nothing exactly when no pair carries the name.
pub proof fn lemma_lookup_has(c: Seq<(Seq<char>, CellV)>, k: Seq<char>, v: CellV)
    requires
        distinct(c),
    ensures
        lookup(c, k) == Some(v) <==> c.contains((k, v)),
        lookup(c, k) is None <==> forall|i: int| 0 <= i < c.len() ==> c[i].0 != k,
{
    if c.contains((k, v)) {
        let i = choose|i: int| 0 <= i < c.len() && c[i] == (k, v);
        lemma_lookup_at(c, i);
    }
    if lookup(c, k) == Some(v) {
        let i = choose|i: int| 0 <= i < c.len() && c[i].0 == k;
        assert(c[i] == (k, v));
    }
    if lookup(c, k) is None {
        assert forall|i: int| 0 <= i < c.len() implies c[i].0 != k by {}
    }
}

/// Placing a cell sets its name and leaves every other name alone.
pub proof fn lemma_placed(c: Seq<(Seq<char>, CellV)>, k: Seq<char>, v: CellV)
    requires
        distinct(c),
    ensures
        distinct(placed(c, k, v)),
        lookup(placed(c, k, v), k) == Some(v),
        forall|k2: Seq<char>| k2 != k ==> #[trigger] lookup(placed(c, k, v), k2) == lookup(c, k2),
{
    let after = placed(c, k, v);
    if exists|i: int| 0 <= i < c.len() && c[i].0 == k {
        let w = choose|i: int| 0 <= i < c.len() && c[i].0 == k;
        assert(after == c.update(w, (k, v)));
        assert forall|a: int, b: int| 0 <= a < b < after.len() implies after[a].0 != after[b].0 by {
            if a != w && b != w {
                assert(after[a] == c[a] && after[b] == c[b]);
            } else if a == w {
                assert(after[b] == c[b]);
                assert(c[a].0 != c[b].0);
            } else {
                assert(after[a] == c[a]);
                assert(c[a].0 != c[b].0);
            }
        }
        lemma_lookup_at(after, w);
        assert forall|k2: Seq<char>| k2 != k implies #[trigger] lookup(after, k2) == lookup(c, k2) by {
            if exists|j: int| 0 <= j < c.len() && c[j].0 == k2 {
                let j = choose|j: int| 0 <= j < c.len() && c[j].0 == k2;
                lemma_lookup_at(c, j);
                lemma_lookup_at(after, j);
            } else {
                assert(!exists|j: int| 0 <= j < after.len() && after[j].0 == k2);
            }
        }
    } else {
        assert(after == c.push((k, v)));
        assert forall|a: int, b: int| 0 <= a < b < after.len() implies after[a].0 != after[b].0 by {
            if b == c.len() {
                assert(after[a] == c[a]);
            } else {
                assert(after[a] == c[a] && after[b] == c[b]);
            }
        }
        lemma_lookup_at(after, c.len() as int);
        assert forall|k2: Seq<char>| k2 != k implies #[trigger] lookup(after, k2) == lookup(c, k2) by {
            if exists|j: int| 0 <= j < c.len() && c[j].0 == k2 {
                let j = choose|j: int| 0 <= j < c.len() && c[j].0 == k2;
                lemma_lookup_at(c, j);
                lemma_lookup_at(after, j);
            } else {
                assert forall|j: int| 0 <= j < after.len() implies after[j].0 != k2 by {
                    if j < c.len() {
                        assert(after[j] == c[j]);
                    }
                }
            }
        }
    }
}

proof fn lemma_dropped_keeps(c: Seq<(Seq<char>, CellV)>, n: Seq<char>)
    ensures
        forall|x: (Seq<char>, CellV)| #[trigger] dropped(c, n).contains(x) <==> (c.contains(x) && x.0 != n),
    decreases c.len(),
{
    if c.len() > 0 {
        let p = c.drop_last();
        lemma_dropped_keeps(p, n);
        let r = dropped(p, n);
        let d = dropped(c, n);
        assert forall|x: (Seq<char>, CellV)| #[trigger] d.contains(x) <==> (c.contains(x) && x.0 != n) by {
            if d.contains(x) {
                let j = choose|j: int| 0 <= j < d.len() && d[j] == x;
                if j < r.len() {
                    assert(d[j] == r[j]);
                    assert(r.contains(x));
                    let i = choose|i: int| 0 <= i < p.len() && p[i] == x;
                    assert(c[i] == x);
                } else {
                    assert(c[c.len() - 1] == x);
                }
            }
            if c.contains(x) && x.0 != n {
                let i = choose|i: int| 0 <= i < c.len() && c[i] == x;
                if i < p.len() {
                    assert(p[i] == x);
                    assert(r.contains(x));
                    let j = choose|j: int| 0 <= j < r.len() && r[j] == x;
                    if c.last().0 == n {
                        assert(d[j] == x);
                    } else {
                        assert(d[j] == x);
                    }
                } else {
                    assert(d[d.len() - 1] == x);
                }
            }
        }
    }
}

/// Dropping a name clears it and leaves every other name alone.
pub proof fn lemma_dropped_lookup(c: Seq<(Seq<char>, CellV)>, n: Seq<char>)
    requires
        distinct(c),
    ensures
        distinct(dropped(c, n)),
        lookup(dropped(c, n), n) is None,
        forall|k2: Seq<char>| k2 != n ==> #[trigger] lookup(dropped(c, n), k2) == lookup(c, k2),
{
    lemma_dropped(c, n);
    lemma_dropped_keeps(c, n);
    let d = dropped(c, n);
    assert forall|i: int| 0 <= i < d.len() implies d[i].0 != n by {
        assert(d.contains(d[i]));
    }
    assert forall|k2: Seq<char>| k2 != n implies #[trigger] lookup(d, k2) == lookup(c, k2) by {
        match lookup(c, k2) {
            Some(v) => {
                lemma_lookup_has(c, k2, v);
                assert(d.contains((k2, v)));
                lemma_lookup_has(d, k2, v);
            },
            None => {
                lemma_lookup_has(c, k2, CellV::Int(0));
                assert forall|i: int| 0 <= i < d.len() implies d[i].0 != k2 by {
                    assert(d.contains(d[i]));
                    let j = choose|j: int| 0 <= j < c.len() && c[j] == d[i];
                }
                lemma_lookup_has(d, k2, CellV::Int(0));
            },
        }
    }
}

/// Removes `name`.
pub fn drop_cell(cells: &mut Cells, name: &str)
    requires
        distinct(cells_view(old(cells)@)),
    ensures
        cells_view(final(cells)@) == dropped(cells_view(old(cells)@), name@),
        distinct(cells_view(final(cells)@)),
{
    let ghost before = cells_view(cells@);
    let mut kept: Cells = Vec::new();
    let mut i: usize = 0;
    while i < cells.len()
        invariant
            i <= cells@.len(),
            before == cells_view(cells@),
            cells_view(kept@) == dropped(before.take(i as int), name@),
        decreases cells@.len() - i,
    {
        let ghost pre = cells_view(kept@);
        assert(before.take(i + 1).drop_last() == before.take(i as int));
        if !same(cells[i].0.as_str(), name) {
            let e = (cells[i].0.clone(), cells[i].1.dup());
            kept.push(e);
            assert(cells_view(kept@) =~= pre.push(before[i as int]));
        }
        i = i + 1;
    }
    assert(before.take(before.len() as int) == before);
    proof {
        lemma_dropped(before, name@);
    }
    *cells = kept;
}

/// Sets `name` to `cell`.
pub fn put_cell(cells: &mut Cells, name: String, cell: Cell)
    requires
        distinct(cells_view(old(cells)@)),
    ensures
        cells_view(final(cells)@) == placed(cells_view(old(cells)@), name@, cell@),
        distinct(cells_view(final(cells)@)),
        lookup(cells_view(final(cells)@), name@) == Some(cell@),
        forall|k: Seq<char>| k != name@ ==> lookup(cells_view(final(cells)@), k) == lookup(
            cells_view(old(cells)@),
            k,
        ),
{
    let ghost before = cells_view(cells@);
    let ghost cv = cell@;
    let ghost nv = name@;
    match seat_of(cells.as_slice(), name.as_str()) {
        Some(i) => {
            proof {
                assert(before[i as int].0 == nv);
                let w = choose|j: int| 0 <= j < before.len() && before[j].0 == nv;
                if w != i {
                    if w < i {
                        assert(before[w].0 != before[i as int].0);
                    } else {
                        assert(before[i as int].0 != before[w].0);
                    }
                }
                assert(w == i);
            }
            cells.set(i, (name, cell));
            assert(cells_view(cells@) =~= before.update(i as int, (nv, cv)));
            let ghost after = cells_view(cells@);
            proof {
                lemma_lookup_at(after, i as int);
                assert forall|k: Seq<char>| k != nv implies lookup(after, k) == lookup(before, k) by {
                    if exists|j: int| 0 <= j < before.len() && before[j].0 == k {
                        let j = choose|j: int| 0 <= j < before.len() && before[j].0 == k;
                        lemma_lookup_at(before, j);
                        lemma_lookup_at(after, j);
                    } else {
                        assert(!exists|j: int| 0 <= j < after.len() && after[j].0 == k);
                    }
                }
            }
        },
        None => {
            proof {
                assert forall|j: int| 0 <= j < before.len() implies before[j].0 != nv by {
                    assert(cells@[j].0@ != nv);
                }
            }
            cells.push((name, cell));
            assert(cells_view(cells@) =~= before.push((nv, cv)));
            let ghost after = cells_view(cells@);
            proof {
                lemma_lookup_at(after, before.len() as int);
                assert forall|k: Seq<char>| k != nv implies lookup(after, k) == lookup(before, k) by {
                    if exists|j: int| 0 <= j < before.len() && before[j].0 == k {
                        let j = choose|j: int| 0 <= j < before.len() && before[j].0 == k;
                        lemma_lookup_at(before, j);
                        lemma_lookup_at(after, j);
                    } else {
                        assert forall|j: int| 0 <= j < after.len() implies after[j].0 != k by {
                            if j == before.len() {
                            } else {
                                assert(after[j] == before[j]);
                            }
                        }
                    }
                }
            }
        },
    }
}

/// A stored row: its key, named cells and lifetime stamps.
#[derive(Debug)]
pub struct Row {
    key: i64,
    cells: Cells,
    expires: Option<i64>,
    created: i64,
    updated: i64,
}

/// The endpoints of a tie.
#[derive(Clone, Copy, Debug, PartialEq, Eq, Structural)]
pub struct Ends {
    pub left: i64,
    pub right: i64,
}

/// A stored tie between two rows, with its own cells.
#[derive(Debug)]
pub struct Tie {
    key: i64,
    left: i64,
    right: i64,
    cells: Cells,
    expires: Option<i64>,
    created: i64,
    updated: i64,
}

impl Row {
    /// The row's key.
    pub closed spec fn key_of(&self) -> i64 {
        self.key
    }

    /// The row's cells.
    pub closed spec fn cells_of(&self) -> Seq<(Seq<char>, CellV)> {
        cells_view(self.cells@)
    }

    /// When the row expires, if it does.
    pub closed spec fn expiry(&self) -> Option<i64> {
        self.expires
    }

    /// When the row was created.
    pub closed spec fn born(&self) -> i64 {
        self.created
    }

    /// When the row was last changed.
    pub closed spec fn touched(&self) -> i64 {
        self.updated
    }

    /// Names are distinct.
    pub open spec fn wf(&self) -> bool {
        distinct(self.cells_of())
    }

    pub fn make(key: i64, cells: Cells, expires: Option<i64>, created: i64, updated: i64) -> (r: Row)
        ensures
            r.key_of() == key,
            r.cells_of() == cells_view(cells@),
            r.expiry() == expires,
            r.born() == created,
            r.touched() == updated,
    {
        Row { key, cells, expires, created, updated }
    }

    /// The key.
    pub fn key(&self) -> (r: i64)
        ensures
            r == self.key_of(),
    {
        self.key
    }

    /// The cells by name.
    pub fn cells(&self) -> (r: &[(String, Cell)])
        ensures
            cells_view(r@) == self.cells_of(),
    {
        self.cells.as_slice()
    }

    /// The cell under `name`.
    pub fn cell(&self, name: &str) -> (r: Option<&Cell>)
        requires
            self.wf(),
        ensures
            match r {
                Some(c) => lookup(self.cells_of(), name@) == Some(c@),
                None => lookup(self.cells_of(), name@) is None,
            },
    {
        get_cell(self.cells.as_slice(), name)
    }

    /// The expiry stamp.
    pub fn expires(&self) -> (r: Option<i64>)
        ensures
            r == self.expiry(),
    {
        self.expires
    }

    /// The creation stamp.
    pub fn created(&self) -> (r: i64)
        ensures
            r == self.born(),
    {
        self.created
    }

    /// The last update stamp.
    pub fn updated(&self) -> (r: i64)
        ensures
            r == self.touched(),
    {
        self.updated
    }
}

impl Tie {
    /// The tie's key.
    pub closed spec fn key_of(&self) -> i64 {
        self.key
    }

    /// The tie's right end.
    pub closed spec fn right_of(&self) -> i64 {
        self.right
    }

    /// The tie's left end.
    pub closed spec fn left_of(&self) -> i64 {
        self.left
    }

    /// The tie's cells.
    pub closed spec fn cells_of(&self) -> Seq<(Seq<char>, CellV)> {
        cells_view(self.cells@)
    }

    /// When the tie expires, if it does.
    pub closed spec fn expiry(&self) -> Option<i64> {
        self.expires
    }

    /// When the tie was created.
    pub closed spec fn born(&self) -> i64 {
        self.created
    }

    /// When the tie was last changed.
    pub closed spec fn touched(&self) -> i64 {
        self.updated
    }

    pub fn make(
        key: i64,
        left: i64,
        right: i64,
        cells: Cells,
        expires: Option<i64>,
        created: i64,
        updated: i64,
    ) -> (t: Tie)
        ensures
            t.key_of() == key,
            t.left_of() == left,
            t.right_of() == right,
            t.cells_of() == cells_view(cells@),
            t.expiry() == expires,
            t.born() == created,
            t.touched() == updated,
    {
        Tie { key, left, right, cells, expires, created, updated }
    }

    /// The key.
    pub fn key(&self) -> (r: i64)
        ensures
            r == self.key_of(),
    {
        self.key
    }

    /// The left end.
    pub fn left(&self) -> (r: i64)
        ensures
            r == self.left_of(),
    {
        self.left
    }

    /// The right end.
    pub fn right(&self) -> (r: i64)
        ensures
            r == self.right_of(),
    {
        self.right
    }

    /// The cells by name.
    pub fn cells(&self) -> (r: &[(String, Cell)])
        ensures
            cells_view(r@) == self.cells_of(),
    {
        self.cells.as_slice()
    }

    /// The expiry stamp.
    pub fn expires(&self) -> (r: Option<i64>)
        ensures
            r == self.expiry(),
    {
        self.expires
    }

    /// The creation stamp.
    pub fn created(&self) -> (r: i64)
        ensures
            r == self.born(),
    {
        self.created
    }

    /// The last update stamp.
    pub fn updated(&self) -> (r: i64)
        ensures
            r == self.touched(),
    {
        self.updated
    }
}

/// `SystemTime::now`, as whole seconds since the Unix epoch; none when
/// the clock stands before the epoch. Nothing is promised of the value: it
/// is the machine's clock.
#[verifier::external_body]
fn clock_secs() -> (r: Option<u64>) {
    std::time::SystemTime::now().duration_since(std::time::UNIX_EPOCH).ok().map(|d| d.as_secs())
}

/// The time a clock reading gives: its whole seconds since the Unix
/// epoch, cast to `i64` as `as` casts, or zero for a clock before the epoch.
pub open spec fn secs_spec(c: Option<u64>) -> i64 {
    match c {
        Some(s) => s as i64,
        None => 0,
    }
}

/// The time a clock reading gives.
pub fn secs_of(c: Option<u64>) -> (r: i64)
    ensures
        r == secs_spec(c),
{
    match c {
        Some(s) => s as i64,
        None => 0,
    }
}

/// The clock in seconds since the Unix epoch, or zero before it: the time
/// some reading of the clock gives.
fn now() -> (r: i64)
    ensures
        exists|c: Option<u64>| r == #[trigger] secs_spec(c),
{
    let c = clock_secs();
    let r = secs_of(c);
    assert(r == secs_spec(c));
    r
}

/// The current time in seconds: the time some reading of the clock gives
/// (whole seconds since the Unix epoch, or zero before it).
pub fn tick() -> (r: i64)
    ensures
        exists|c: Option<u64>| r == #[trigger] secs_spec(c),
{
    now()
}

} // verus!
