use vstd::prelude::*;
use crate::cell::{Cell, cell_ok, is_fresh};
use crate::color::{Rgb, brightness};
use crate::rng;

verus! {

/// Whether a position is sound: empty, or holding a sound cell.
pub open spec fn pos_ok(oc: Option<Cell>, max_age: u16) -> bool {
    match oc {
        Some(c) => cell_ok(c, max_age),
        None => true,
    }
}

/// A sound grid: `h` rows of `w` columns, every position sound.
pub open spec fn grid_ok(g: Seq<Seq<Option<Cell>>>, w: int, h: int, max_age: u16) -> bool {
    &&& g.len() == h
    &&& (forall|y: int| 0 <= y < h ==> (#[trigger] g[y]).len() == w)
    &&& (forall|y: int, x: int|
        0 <= y < h && 0 <= x < w ==> pos_ok(#[trigger] g[y][x], max_age))
}

/// One cell after the age phase: its age grows by one, saturating at
/// `max_age`; its glyph is untouched.
pub open spec fn aged_cell(c: Cell, max_age: u16) -> Cell {
    if c.age < max_age {
        Cell { content: c.content, age: (c.age + 1) as u16 }
    } else {
        c
    }
}

/// One position after the age phase: occupancy is untouched.
pub open spec fn aged_pos(oc: Option<Cell>, max_age: u16) -> Option<Cell> {
    match oc {
        Some(c) => Some(aged_cell(c, max_age)),
        None => None,
    }
}

/// The whole grid after the age phase.
pub open spec fn age_step(g: Seq<Seq<Option<Cell>>>, max_age: u16) -> Seq<Seq<Option<Cell>>> {
    g.map_values(
        |row: Seq<Option<Cell>>| row.map_values(|oc: Option<Cell>| aged_pos(oc, max_age)),
    )
}

/// Aging a sound cell yields age `min(previous age + 1, max_age)`: the age
/// never exceeds `max_age` and never decreases, and the glyph is kept.
pub proof fn lemma_aged_cell_min(c: Cell, max_age: u16)
    requires
        c.age <= max_age,
    ensures
        aged_cell(c, max_age).age as int == vstd::math::min(c.age + 1, max_age as int),
        c.age <= aged_cell(c, max_age).age <= max_age,
        aged_cell(c, max_age).content == c.content,
{
}

/// After the age phase, occupancy is unchanged at every position and every
/// occupied cell's age is exactly `min(previous age + 1, max_age)`.
pub proof fn lemma_age_phase_min(
    g: Seq<Seq<Option<Cell>>>,
    w: int,
    h: int,
    max_age: u16,
    y: int,
    x: int,
)
    requires
        grid_ok(g, w, h, max_age),
        0 <= y < h,
        0 <= x < w,
    ensures
        age_step(g, max_age)[y][x] is Some <==> g[y][x] is Some,
        g[y][x] is Some ==> age_step(g, max_age)[y][x].unwrap().age as int == vstd::math::min(
            g[y][x].unwrap().age + 1,
            max_age as int,
        ),
{
    if g[y][x] is Some {
        lemma_aged_cell_min(g[y][x].unwrap(), max_age);
    }
}

/// Whether a position holds a cell of age exactly 1, the only age that
/// seeds a child one row below.
pub open spec fn age_is_one(oc: Option<Cell>) -> bool {
    match oc {
        Some(c) => c.age == 1,
        None => false,
    }
}

/// Whether the child phase overwrites position `(y, x)` of grid `g`. The
/// phase scans rows top to bottom and spawns below every cell whose age is 1
/// at the moment its row is read; a position the scan itself just overwrote
/// holds a newborn of age 0, so it cannot seed a child in the same phase.
pub open spec fn child_spawns_at(g: Seq<Seq<Option<Cell>>>, y: int, x: int) -> bool
    decreases y,
{
    if y <= 0 {
        false
    } else if y == 1 {
        age_is_one(g[0][x])
    } else {
        age_is_one(g[y - 1][x]) && !child_spawns_at(g, y - 1, x)
    }
}

/// The child phase, as a relation between the grid before (`pre`) and after
/// (`post`): the top row is untouched; below it, a spawning position holds a
/// newborn and every other position is untouched.
pub open spec fn child_phase_ok(
    pre: Seq<Seq<Option<Cell>>>,
    post: Seq<Seq<Option<Cell>>>,
    w: int,
    h: int,
) -> bool {
    &&& post.len() == h
    &&& (forall|y: int| 0 <= y < h ==> (#[trigger] post[y]).len() == w)
    &&& (forall|x: int| 0 <= x < w && 0 < h ==> post[0][x] == pre[0][x])
    &&& (forall|y: int, x: int|
        1 <= y < h && 0 <= x < w ==> (if child_spawns_at(pre, y, x) {
            is_fresh(#[trigger] post[y][x])
        } else {
            post[y][x] == pre[y][x]
        }))
}

/// Child-spawn creates a cell at `(y, x)` only when `(y - 1, x)` held a cell
/// of age exactly 1 immediately before the child phase ran.
pub proof fn lemma_child_spawn_needs_age_one(
    pre: Seq<Seq<Option<Cell>>>,
    post: Seq<Seq<Option<Cell>>>,
    w: int,
    h: int,
    y: int,
    x: int,
)
    requires
        child_phase_ok(pre, post, w, h),
        1 <= y < h,
        0 <= x < w,
        post[y][x] != pre[y][x],
    ensures
        age_is_one(pre[y - 1][x]),
{
    assert(child_spawns_at(pre, y, x));
}

/// Whether a position holds a fully aged cell (age exactly `max_age`),
/// eligible for replacement during parent-spawn.
pub open spec fn is_aged_pos(oc: Option<Cell>, max_age: u16) -> bool {
    match oc {
        Some(c) => c.age == max_age,
        None => false,
    }
}

/// The empty columns among the first `w` of a top row.
pub open spec fn empty_cols(row: Seq<Option<Cell>>, w: int) -> Set<int> {
    Set::new(|x: int| 0 <= x < w && row[x] is None)
}

/// The fully aged columns among the first `w` of a top row.
pub open spec fn aged_cols(row: Seq<Option<Cell>>, w: int, max_age: u16) -> Set<int> {
    Set::new(|x: int| 0 <= x < w && is_aged_pos(row[x], max_age))
}

/// The columns eligible for parent-spawn: the empty ones and the fully aged
/// ones.
pub open spec fn eligible_cols(row: Seq<Option<Cell>>, w: int, max_age: u16) -> Set<int> {
    empty_cols(row, w).union(aged_cols(row, w, max_age))
}

/// Whether the sequence of chosen columns holds column `x`.
pub open spec fn cols_contain(s: Seq<usize>, x: int) -> bool {
    exists|i: int| 0 <= i < s.len() && (#[trigger] s[i]) as int == x
}

proof fn lemma_cols_contain_take_step(s: Seq<usize>, i: int, x: int)
    requires
        0 <= i < s.len(),
    ensures
        cols_contain(s.take(i + 1), x) <==> (cols_contain(s.take(i), x) || (s[i] as int) == x),
{
    if cols_contain(s.take(i + 1), x) {
        let k = choose|k: int| 0 <= k < s.take(i + 1).len() && (#[trigger] s.take(i + 1)[k]) as int
            == x;
        if k < i {
            assert(s.take(i)[k] == s.take(i + 1)[k]);
            assert(cols_contain(s.take(i), x));
        } else {
            assert(s.take(i + 1)[i] == s[i]);
        }
    }
    if cols_contain(s.take(i), x) {
        let k = choose|k: int| 0 <= k < s.take(i).len() && (#[trigger] s.take(i)[k]) as int == x;
        assert(s.take(i + 1)[k] == s.take(i)[k]);
        assert(cols_contain(s.take(i + 1), x));
    }
    if (s[i] as int) == x {
        assert(s.take(i + 1)[i] == s[i]);
        assert(cols_contain(s.take(i + 1), x));
    }
}

proof fn lemma_cols_contain_add(a: Seq<usize>, b: Seq<usize>, x: int)
    ensures
        cols_contain(a + b, x) <==> (cols_contain(a, x) || cols_contain(b, x)),
{
    if cols_contain(a + b, x) {
        let k = choose|k: int| 0 <= k < (a + b).len() && (#[trigger] (a + b)[k]) as int == x;
        if k < a.len() {
            assert((a + b)[k] == a[k]);
            assert(cols_contain(a, x));
        } else {
            assert((a + b)[k] == b[k - a.len()]);
            assert(cols_contain(b, x));
        }
    }
    if cols_contain(a, x) {
        let k = choose|k: int| 0 <= k < a.len() && (#[trigger] a[k]) as int == x;
        assert((a + b)[k] == a[k]);
        assert(cols_contain(a + b, x));
    }
    if cols_contain(b, x) {
        let k = choose|k: int| 0 <= k < b.len() && (#[trigger] b[k]) as int == x;
        assert((a + b)[k + a.len()] == b[k]);
        assert(cols_contain(a + b, x));
    }
}

/// One admissible outcome of the parent-spawn choice on the top row:
/// `ecols` empty columns and `acols` fully aged columns, each drawn without
/// replacement and empties preferred, as many as the budget `sc` and the
/// two pools allow; every chosen column is overwritten with a newborn and
/// every other column is untouched.
pub open spec fn parent_choice_ok(
    prow: Seq<Option<Cell>>,
    qrow: Seq<Option<Cell>>,
    ecols: Seq<usize>,
    acols: Seq<usize>,
    sc: int,
    max_age: u16,
    w: int,
) -> bool {
    &&& ecols.no_duplicates()
    &&& acols.no_duplicates()
    &&& (forall|i: int|
        0 <= i < ecols.len() ==> empty_cols(prow, w).contains((#[trigger] ecols[i]) as int))
    &&& (forall|i: int|
        0 <= i < acols.len() ==> aged_cols(prow, w, max_age).contains((#[trigger] acols[i]) as int))
    &&& ecols.len() == vstd::math::min(sc, empty_cols(prow, w).len() as int)
    &&& acols.len() == vstd::math::min(sc - ecols.len(), aged_cols(prow, w, max_age).len() as int)
    &&& (forall|x: int|
        0 <= x < w ==> (if cols_contain(ecols, x) || cols_contain(acols, x) {
            is_fresh(#[trigger] qrow[x])
        } else {
            qrow[x] == prow[x]
        }))
}

/// The parent-spawn phase, as a relation between the grid before (`pre`)
/// and after (`post`): rows below the top are untouched and the top row is
/// rewritten by some admissible choice of columns.
pub open spec fn parent_phase_ok(
    pre: Seq<Seq<Option<Cell>>>,
    post: Seq<Seq<Option<Cell>>>,
    sc: int,
    max_age: u16,
    w: int,
    h: int,
) -> bool {
    &&& post.len() == h
    &&& (forall|y: int| 1 <= y < h ==> #[trigger] post[y] == pre[y])
    &&& (0 < h ==> post[0].len() == w && (exists|ecols: Seq<usize>, acols: Seq<usize>|
        #[trigger] parent_choice_ok(pre[0], post[0], ecols, acols, sc, max_age, w)))
}

/// One cell of a rendered frame: either a blank (an empty position, drawn
/// as two spaces) or a glyph of the alphabet with its fade color.
#[derive(Clone, Copy, Debug, PartialEq, Eq, Structural)]
pub enum FrameCell {
    Blank,
    Glyph { content: usize, color: Rgb },
}

/// What one grid position renders to: empty positions render blank; an
/// occupied one renders its glyph in the grayscale fade color of its age.
pub open spec fn frame_cell_spec(oc: Option<Cell>, max_age: u16) -> FrameCell {
    match oc {
        Some(c) => FrameCell::Glyph {
            content: c.content,
            color: Rgb {
                r: brightness(c.age, max_age) as u8,
                g: brightness(c.age, max_age) as u8,
                b: brightness(c.age, max_age) as u8,
            },
        },
        None => FrameCell::Blank,
    }
}

/// A frame is blank exactly at the empty positions, and every rendered
/// glyph's color is grayscale: its three channels are equal.
pub proof fn lemma_frame_cell(oc: Option<Cell>, max_age: u16)
    ensures
        frame_cell_spec(oc, max_age) is Blank <==> oc is None,
        (match frame_cell_spec(oc, max_age) {
            FrameCell::Glyph { content, color } => color.r == color.g && color.g == color.b,
            FrameCell::Blank => true,
        }),
{
}

/// The top-row columns whose content differs between two versions of the
/// row.
pub open spec fn changed_cols(
    prow: Seq<Option<Cell>>,
    qrow: Seq<Option<Cell>>,
    w: int,
) -> Set<int> {
    Set::new(|x: int| 0 <= x < w && qrow[x] != prow[x])
}

proof fn lemma_cols_contain_to_set(s: Seq<usize>, x: int)
    ensures
        cols_contain(s, x) <==> s.map_values(|u: usize| u as int).to_set().contains(x),
{
    let m = s.map_values(|u: usize| u as int);
    if cols_contain(s, x) {
        let i = choose|i: int| 0 <= i < s.len() && (#[trigger] s[i]) as int == x;
        assert(m[i] == x);
        assert(m.contains(x));
    }
    if m.to_set().contains(x) {
        let i = choose|i: int| 0 <= i < m.len() && m[i] == x;
        assert((s[i] as int) == x);
        assert(cols_contain(s, x));
    }
}

proof fn lemma_map_to_int_no_dup(s: Seq<usize>)
    requires
        s.no_duplicates(),
    ensures
        s.map_values(|u: usize| u as int).no_duplicates(),
{
    let m = s.map_values(|u: usize| u as int);
    assert forall|i: int, j: int|
        0 <= i < m.len() && 0 <= j < m.len() && i != j implies m[i] != m[j] by {
        assert(m[i] == s[i] as int);
        assert(m[j] == s[j] as int);
        assert(s[i] != s[j]);
    }
}

/// After parent-spawn, at most `sc` top-row positions differ from their
/// pre-phase state; when `max_age >= 1` and at least `sc` columns were
/// eligible (empty or fully aged), exactly `sc` differ.
pub proof fn lemma_parent_spawn_change_count(
    pre: Seq<Seq<Option<Cell>>>,
    post: Seq<Seq<Option<Cell>>>,
    sc: int,
    max_age: u16,
    w: int,
    h: int,
)
    requires
        0 < h,
        0 <= sc,
        pre.len() == h,
        pre[0].len() == w,
        parent_phase_ok(pre, post, sc, max_age, w, h),
    ensures
        changed_cols(pre[0], post[0], w).finite(),
        changed_cols(pre[0], post[0], w).len() <= sc,
        (max_age >= 1 && eligible_cols(pre[0], w, max_age).len() >= sc)
            ==> changed_cols(pre[0], post[0], w).len() == sc,
{
    let prow = pre[0];
    let qrow = post[0];
    let e_set = empty_cols(prow, w);
    let a_set = aged_cols(prow, w, max_age);
    let c_set = changed_cols(prow, qrow, w);
    let range = vstd::set_lib::set_int_range(0, w);
    vstd::set_lib::lemma_int_range(0, w);
    assert(e_set.subset_of(range));
    assert(a_set.subset_of(range));
    assert(c_set.subset_of(range));
    vstd::set_lib::lemma_len_subset(e_set, range);
    vstd::set_lib::lemma_len_subset(a_set, range);
    vstd::set_lib::lemma_len_subset(c_set, range);

    let (ecols, acols) = choose|ecols: Seq<usize>, acols: Seq<usize>|
        #[trigger] parent_choice_ok(prow, qrow, ecols, acols, sc, max_age, w);
    let em = ecols.map_values(|u: usize| u as int);
    let am = acols.map_values(|u: usize| u as int);
    lemma_map_to_int_no_dup(ecols);
    lemma_map_to_int_no_dup(acols);
    em.unique_seq_to_set();
    am.unique_seq_to_set();
    let es = em.to_set();
    let as_set = am.to_set();
    assert forall|x: int| es.contains(x) implies e_set.contains(x) by {
        lemma_cols_contain_to_set(ecols, x);
        let i = choose|i: int| 0 <= i < ecols.len() && (#[trigger] ecols[i]) as int == x;
        assert(e_set.contains(ecols[i] as int));
    }
    assert forall|x: int| as_set.contains(x) implies a_set.contains(x) by {
        lemma_cols_contain_to_set(acols, x);
        let i = choose|i: int| 0 <= i < acols.len() && (#[trigger] acols[i]) as int == x;
        assert(a_set.contains(acols[i] as int));
    }

    // every changed column was a chosen column
    assert forall|x: int| c_set.contains(x) implies es.union(as_set).contains(x) by {
        assert(qrow[x] != prow[x]);
        assert(cols_contain(ecols, x) || cols_contain(acols, x));
        lemma_cols_contain_to_set(ecols, x);
        lemma_cols_contain_to_set(acols, x);
    }
    assert(c_set.subset_of(es.union(as_set)));
    vstd::set_lib::lemma_len_union(es, as_set);
    vstd::set_lib::lemma_len_subset(c_set, es.union(as_set));
    assert(ecols.len() <= sc);
    assert(acols.len() <= sc - ecols.len());
    assert(c_set.len() <= sc);

    if max_age >= 1 && eligible_cols(prow, w, max_age).len() >= sc {
        // the two pools are disjoint, so together they held enough columns
        assert(e_set.disjoint(a_set));
        vstd::set_lib::lemma_set_disjoint_lens(e_set, a_set);
        assert(e_set + a_set =~= eligible_cols(prow, w, max_age));
        assert(e_set.len() + a_set.len() >= sc);
        assert(ecols.len() + acols.len() == sc);

        // every chosen column changed: a newborn differs both from an empty
        // position and from a fully aged cell (age max_age >= 1)
        assert forall|x: int| es.union(as_set).contains(x) implies c_set.contains(x) by {
            lemma_cols_contain_to_set(ecols, x);
            lemma_cols_contain_to_set(acols, x);
            assert(is_fresh(qrow[x]));
            if es.contains(x) {
                assert(e_set.contains(x));
            } else {
                assert(a_set.contains(x));
            }
        }
        assert(c_set =~= es.union(as_set));
        assert(es.disjoint(as_set));
        vstd::set_lib::lemma_set_disjoint_lens(es, as_set);
        assert(es + as_set =~= es.union(as_set));
        assert(c_set.len() == sc);
    }
}

/// The grid engine: a fixed-size grid of optional cells, a spawn budget per
/// tick, the saturation age, and the random generator that picks glyphs and
/// spawn columns.
pub struct Matrix {
    rng: rand::rngs::ThreadRng,
    width: usize,
    height: usize,
    buffer: Vec<Vec<Option<Cell>>>,
    spawn_count: usize,
    max_age: u16,
}

impl Matrix {
    /// The grid contents, one row per terminal row.
    pub closed spec fn cells(&self) -> Seq<Seq<Option<Cell>>> {
        self.buffer@.map_values(|row: Vec<Option<Cell>>| row@)
    }

    pub closed spec fn width_spec(&self) -> int {
        self.width as int
    }

    pub closed spec fn height_spec(&self) -> int {
        self.height as int
    }

    pub closed spec fn spawn_count_spec(&self) -> int {
        self.spawn_count as int
    }

    pub closed spec fn max_age_spec(&self) -> u16 {
        self.max_age
    }

    /// The engine's invariant: the grid has its fixed dimensions and every
    /// cell is sound.
    pub open spec fn wf(&self) -> bool {
        grid_ok(self.cells(), self.width_spec(), self.height_spec(), self.max_age_spec())
    }

    /// A fresh all-empty engine. The given width is halved: every glyph is
    /// rendered two terminal columns wide.
    pub fn new(width: usize, height: usize, spawn_count: usize, max_age: u16) -> (m: Matrix)
        ensures
            m.wf(),
            m.width_spec() == width as int / 2,
            m.height_spec() == height as int,
            m.spawn_count_spec() == spawn_count as int,
            m.max_age_spec() == max_age,
            forall|y: int, x: int|
                0 <= y < height && 0 <= x < width as int / 2 ==> m.cells()[y][x] is None,
    {
        let w = width / 2;
        let mut buffer: Vec<Vec<Option<Cell>>> = Vec::new();
        let mut y: usize = 0;
        while y < height
            invariant
                y <= height,
                buffer@.len() == y,
                forall|i: int|
                    0 <= i < y ==> (#[trigger] buffer@[i])@.len() == w as int,
                forall|i: int, j: int|
                    0 <= i < y && 0 <= j < w ==> (#[trigger] buffer@[i]@[j]) is None,
            decreases height - y,
        {
            let mut row: Vec<Option<Cell>> = Vec::new();
            let mut x: usize = 0;
            while x < w
                invariant
                    x <= w,
                    row@.len() == x,
                    forall|j: int| 0 <= j < x ==> (#[trigger] row@[j]) is None,
                decreases w - x,
            {
                row.push(None);
                x = x + 1;
            }
            buffer.push(row);
            y = y + 1;
        }
        Matrix { rng: rng::fresh_rng(), width: w, height, buffer, spawn_count, max_age }
    }

    /// The number of cell columns (half the terminal width given at birth).
    pub fn width(&self) -> (w: usize)
        ensures
            w as int == self.width_spec(),
    {
        self.width
    }

    /// The number of rows.
    pub fn height(&self) -> (h: usize)
        ensures
            h as int == self.height_spec(),
    {
        self.height
    }

    /// How many fresh cells each tick tries to spawn in the top row.
    pub fn spawn_count(&self) -> (n: usize)
        ensures
            n as int == self.spawn_count_spec(),
    {
        self.spawn_count
    }

    /// The age at which a cell saturates and becomes eligible for respawn.
    pub fn max_age(&self) -> (a: u16)
        ensures
            a == self.max_age_spec(),
    {
        self.max_age
    }

    /// The position at row `y`, column `x`.
    pub fn get(&self, y: usize, x: usize) -> (oc: Option<Cell>)
        requires
            self.wf(),
            y < self.height_spec(),
            x < self.width_spec(),
        ensures
            oc == self.cells()[y as int][x as int],
    {
        proof {
            assert(self.buffer@.len() == self.cells().len());
            assert(self.buffer@[y as int]@ == self.cells()[y as int]);
        }
        self.buffer[y][x]
    }

    /// The fade color for a cell of the given age: grayscale, dark at age 0,
    /// brightening linearly toward `max_age`.
    pub fn get_color(&self, age: u16) -> (c: Rgb)
        requires
            age <= self.max_age_spec(),
        ensures
            c.r == brightness(age, self.max_age_spec()),
            c.g == brightness(age, self.max_age_spec()),
            c.b == brightness(age, self.max_age_spec()),
    {
        crate::color::fade_color(age, self.max_age)
    }

    /// The age phase: every occupied cell's age grows by one, saturating at
    /// `max_age`; empty positions and glyphs are untouched.
    pub fn age(&mut self)
        requires
            old(self).wf(),
        ensures
            final(self).wf(),
            final(self).width_spec() == old(self).width_spec(),
            final(self).height_spec() == old(self).height_spec(),
            final(self).spawn_count_spec() == old(self).spawn_count_spec(),
            final(self).max_age_spec() == old(self).max_age_spec(),
            final(self).cells() == age_step(old(self).cells(), old(self).max_age_spec()),
    {
        let height = self.height;
        let width = self.width;
        let max_age = self.max_age;
        let mut y: usize = 0;
        while y < height
            invariant
                y <= height,
                self.width == old(self).width,
                self.height == old(self).height,
                self.spawn_count == old(self).spawn_count,
                self.max_age == old(self).max_age,
                self.rng == old(self).rng,
                width == self.width,
                height == self.height,
                max_age == self.max_age,
                old(self).wf(),
                self.cells().len() == height as int,
                forall|i: int|
                    0 <= i < height ==> (#[trigger] self.cells()[i]).len() == width as int,
                forall|i: int, j: int|
                    0 <= i < y && 0 <= j < width ==> #[trigger] self.cells()[i][j] == aged_pos(
                        old(self).cells()[i][j],
                        max_age,
                    ),
                forall|i: int, j: int|
                    y <= i < height && 0 <= j < width ==> #[trigger] self.cells()[i][j] == old(
                        self,
                    ).cells()[i][j],
            decreases height - y,
        {
            let mut x: usize = 0;
            while x < width
                invariant
                    y < height,
                    x <= width,
                    self.width == old(self).width,
                    self.height == old(self).height,
                    self.spawn_count == old(self).spawn_count,
                    self.max_age == old(self).max_age,
                    self.rng == old(self).rng,
                    width == self.width,
                    height == self.height,
                    max_age == self.max_age,
                    old(self).wf(),
                    self.cells().len() == height as int,
                    forall|i: int|
                        0 <= i < height ==> (#[trigger] self.cells()[i]).len() == width as int,
                    forall|i: int, j: int|
                        0 <= i < y && 0 <= j < width ==> #[trigger] self.cells()[i][j] == aged_pos(
                            old(self).cells()[i][j],
                            max_age,
                        ),
                    forall|j: int|
                        0 <= j < x ==> #[trigger] self.cells()[y as int][j] == aged_pos(
                            old(self).cells()[y as int][j],
                            max_age,
                        ),
                    forall|j: int|
                        x <= j < width ==> #[trigger] self.cells()[y as int][j] == old(
                            self,
                        ).cells()[y as int][j],
                    forall|i: int, j: int|
                        y < i < height && 0 <= j < width ==> #[trigger] self.cells()[i][j] == old(
                            self,
                        ).cells()[i][j],
                decreases width - x,
            {
                let ghost pre = self.cells();
                let ghost prebuf = self.buffer@;
                proof {
                    assert(self.buffer@.len() == self.cells().len());
                    assert(self.buffer@[y as int]@ == self.cells()[y as int]);
                }
                let oc = self.buffer[y][x];
                match oc {
                    Some(c) => {
                        if c.age < max_age {
                            self.buffer[y][x] = Some(Cell { content: c.content, age: c.age + 1 });
                        }
                    },
                    None => {},
                }
                proof {
                    assert forall|i: int| 0 <= i < height && i != y as int implies #[trigger] self
                        .cells()[i] == pre[i] by {
                        assert(self.buffer@[i] == prebuf[i]);
                        assert(self.cells()[i] == self.buffer@[i]@);
                        assert(pre[i] == prebuf[i]@);
                    }
                    assert(self.cells()[y as int] == self.buffer@[y as int]@);
                    assert forall|j: int| 0 <= j < width && j != x as int implies self.cells()[y as int][j]
                        == pre[y as int][j] by {
                        assert(self.buffer@[y as int]@[j] == prebuf[y as int]@[j]);
                    }
                    assert(self.cells()[y as int][x as int] == aged_pos(
                        old(self).cells()[y as int][x as int],
                        max_age,
                    ));
                }
                x = x + 1;
            }
            y = y + 1;
        }
        proof {
            assert(self.cells() =~~= age_step(old(self).cells(), old(self).max_age_spec()));
        }
    }

    /// The empty columns of the top row, in increasing order.
    fn collect_empty_cols(&self) -> (v: Vec<usize>)
        requires
            self.wf(),
            0 < self.height_spec(),
        ensures
            v@.no_duplicates(),
            forall|i: int|
                0 <= i < v@.len() ==> empty_cols(self.cells()[0], self.width_spec()).contains(
                    (#[trigger] v@[i]) as int,
                ),
            v@.len() == empty_cols(self.cells()[0], self.width_spec()).len(),
            empty_cols(self.cells()[0], self.width_spec()).finite(),
    {
        let width = self.width;
        let mut v: Vec<usize> = Vec::new();
        let mut x: usize = 0;
        proof {
            assert(empty_cols(self.cells()[0], 0) =~= Set::<int>::empty());
        }
        while x < width
            invariant
                x <= width,
                self.wf(),
                0 < self.height_spec(),
                width as int == self.width_spec(),
                v@.no_duplicates(),
                forall|i: int| 0 <= i < v@.len() ==> (#[trigger] v@[i]) < x,
                forall|i: int|
                    0 <= i < v@.len() ==> empty_cols(self.cells()[0], x as int).contains(
                        (#[trigger] v@[i]) as int,
                    ),
                v@.len() == empty_cols(self.cells()[0], x as int).len(),
                empty_cols(self.cells()[0], x as int).finite(),
            decreases width - x,
        {
            let ghost eprev = empty_cols(self.cells()[0], x as int);
            let ghost vprev = v@;
            proof {
                assert(self.buffer@.len() == self.cells().len());
                assert(self.buffer@[0]@ == self.cells()[0]);
            }
            let oc = self.buffer[0][x];
            if oc.is_none() {
                v.push(x);
            }
            proof {
                if self.cells()[0][x as int] is None {
                    assert(empty_cols(self.cells()[0], x as int + 1) =~= eprev.insert(x as int));
                    assert(!eprev.contains(x as int));
                    assert forall|i: int, j: int|
                        0 <= i < j < v@.len() implies v@[i] != v@[j] by {
                        if j < v@.len() - 1 {
                            assert(vprev[i] != vprev[j]);
                        } else {
                            assert(vprev[i] < x);
                        }
                    }
                } else {
                    assert(empty_cols(self.cells()[0], x as int + 1) =~= eprev);
                }
            }
            x = x + 1;
        }
        v
    }

    /// The fully aged columns of the top row, in increasing order.
    fn collect_aged_cols(&self) -> (v: Vec<usize>)
        requires
            self.wf(),
            0 < self.height_spec(),
        ensures
            v@.no_duplicates(),
            forall|i: int|
                0 <= i < v@.len() ==> aged_cols(
                    self.cells()[0],
                    self.width_spec(),
                    self.max_age_spec(),
                ).contains((#[trigger] v@[i]) as int),
            v@.len() == aged_cols(self.cells()[0], self.width_spec(), self.max_age_spec()).len(),
            aged_cols(self.cells()[0], self.width_spec(), self.max_age_spec()).finite(),
    {
        let width = self.width;
        let max_age = self.max_age;
        let mut v: Vec<usize> = Vec::new();
        let mut x: usize = 0;
        proof {
            assert(aged_cols(self.cells()[0], 0, max_age) =~= Set::<int>::empty());
        }
        while x < width
            invariant
                x <= width,
                self.wf(),
                0 < self.height_spec(),
                width as int == self.width_spec(),
                max_age == self.max_age_spec(),
                v@.no_duplicates(),
                forall|i: int| 0 <= i < v@.len() ==> (#[trigger] v@[i]) < x,
                forall|i: int|
                    0 <= i < v@.len() ==> aged_cols(self.cells()[0], x as int, max_age).contains(
                        (#[trigger] v@[i]) as int,
                    ),
                v@.len() == aged_cols(self.cells()[0], x as int, max_age).len(),
                aged_cols(self.cells()[0], x as int, max_age).finite(),
            decreases width - x,
        {
            let ghost aprev = aged_cols(self.cells()[0], x as int, max_age);
            let ghost vprev = v@;
            proof {
                assert(self.buffer@.len() == self.cells().len());
                assert(self.buffer@[0]@ == self.cells()[0]);
            }
            let oc = self.buffer[0][x];
            let keep = match oc {
                Some(c) => c.age == max_age,
                None => false,
            };
            if keep {
                v.push(x);
            }
            proof {
                if is_aged_pos(self.cells()[0][x as int], max_age) {
                    assert(aged_cols(self.cells()[0], x as int + 1, max_age) =~= aprev.insert(
                        x as int,
                    ));
                    assert(!aprev.contains(x as int));
                    assert forall|i: int, j: int|
                        0 <= i < j < v@.len() implies v@[i] != v@[j] by {
                        if j < v@.len() - 1 {
                            assert(vprev[i] != vprev[j]);
                        } else {
                            assert(vprev[i] < x);
                        }
                    }
                } else {
                    assert(aged_cols(self.cells()[0], x as int + 1, max_age) =~= aprev);
                }
            }
            x = x + 1;
        }
        v
    }

    /// The parent-spawn phase: choose up to `spawn_count` top-row columns,
    /// preferring empty ones and falling back to fully aged ones, and
    /// overwrite each chosen column with a newborn cell. When both pools
    /// run short, fewer cells spawn; when both are exhausted, none do.
    pub fn spawn_parents(&mut self)
        requires
            old(self).wf(),
        ensures
            final(self).wf(),
            final(self).width_spec() == old(self).width_spec(),
            final(self).height_spec() == old(self).height_spec(),
            final(self).spawn_count_spec() == old(self).spawn_count_spec(),
            final(self).max_age_spec() == old(self).max_age_spec(),
            parent_phase_ok(
                old(self).cells(),
                final(self).cells(),
                old(self).spawn_count_spec(),
                old(self).max_age_spec(),
                old(self).width_spec(),
                old(self).height_spec(),
            ),
    {
        if self.height == 0 {
            return ;
        }
        let width = self.width;
        let height = self.height;
        let max_age = self.max_age;
        let budget = self.spawn_count;
        let ghost pre = self.cells();
        let ghost e_set = empty_cols(pre[0], width as int);
        let ghost a_set = aged_cols(pre[0], width as int, max_age);

        let empties = self.collect_empty_cols();
        let mut spawn_cols = rng::choose_up_to(&mut self.rng, &empties, budget);
        let ghost ecols_g = spawn_cols@;
        let ghost mut acols_g: Seq<usize> = Seq::empty();
        proof {
            assert(self.cells() == pre);
            assert(ecols_g.len() == vstd::math::min(budget as int, e_set.len() as int));
        }
        if spawn_cols.len() < budget {
            let shortfall = budget - spawn_cols.len();
            let aged = self.collect_aged_cols();
            let mut extra = rng::choose_up_to(&mut self.rng, &aged, shortfall);
            proof {
                acols_g = extra@;
                assert(self.cells() == pre);
                assert(acols_g.len() == vstd::math::min(
                    budget - ecols_g.len(),
                    a_set.len() as int,
                ));
            }
            spawn_cols.append(&mut extra);
            proof {
                assert(spawn_cols@ == ecols_g + acols_g);
            }
        } else {
            proof {
                assert(ecols_g.len() == budget as int);
                assert(acols_g.len() == vstd::math::min(
                    budget - ecols_g.len(),
                    a_set.len() as int,
                ));
                assert(spawn_cols@ =~= ecols_g + acols_g);
            }
        }
        proof {
            assert(self.cells() == pre);
            assert forall|k: int| 0 <= k < spawn_cols@.len() implies (#[trigger] spawn_cols@[k])
                < width by {
                if k < ecols_g.len() {
                    assert(spawn_cols@[k] == ecols_g[k]);
                    assert(e_set.contains(ecols_g[k] as int));
                } else {
                    assert(spawn_cols@[k] == acols_g[k - ecols_g.len()]);
                    assert(a_set.contains(acols_g[k - ecols_g.len()] as int));
                }
            }
        }

        let total = spawn_cols.len();
        let mut i: usize = 0;
        while i < total
            invariant
                i <= total,
                total == spawn_cols@.len(),
                forall|k: int| 0 <= k < spawn_cols@.len() ==> (#[trigger] spawn_cols@[k]) < width,
                self.width == old(self).width,
                self.height == old(self).height,
                self.spawn_count == old(self).spawn_count,
                self.max_age == old(self).max_age,
                width == self.width,
                height == self.height,
                max_age == self.max_age,
                0 < height,
                pre == old(self).cells(),
                self.cells().len() == height as int,
                forall|r: int|
                    0 <= r < height ==> (#[trigger] self.cells()[r]).len() == width as int,
                forall|r: int, j: int|
                    0 <= r < height && 0 <= j < width ==> pos_ok(
                        #[trigger] self.cells()[r][j],
                        max_age,
                    ),
                forall|r: int| 1 <= r < height ==> #[trigger] self.cells()[r] == pre[r],
                forall|x: int|
                    0 <= x < width ==> (if cols_contain(spawn_cols@.take(i as int), x) {
                        is_fresh(#[trigger] self.cells()[0][x])
                    } else {
                        self.cells()[0][x] == pre[0][x]
                    }),
            decreases total - i,
        {
            let col = spawn_cols[i];
            let fresh_cell = Cell::new(&mut self.rng);
            let ghost mid = self.cells();
            let ghost midbuf = self.buffer@;
            proof {
                assert(self.buffer@.len() == self.cells().len());
                assert(self.buffer@[0]@ == self.cells()[0]);
            }
            self.buffer[0][col] = Some(fresh_cell);
            proof {
                assert forall|r: int| 0 <= r < height && r != 0 implies #[trigger] self.cells()[r]
                    == mid[r] by {
                    assert(self.buffer@[r] == midbuf[r]);
                    assert(self.cells()[r] == self.buffer@[r]@);
                    assert(mid[r] == midbuf[r]@);
                }
                assert(self.cells()[0] == self.buffer@[0]@);
                assert forall|j: int| 0 <= j < width && j != col as int implies self.cells()[0][j]
                    == mid[0][j] by {
                    assert(self.buffer@[0]@[j] == midbuf[0]@[j]);
                }
                assert(is_fresh(self.cells()[0][col as int]));
                assert forall|x: int| 0 <= x < width implies (if cols_contain(
                    spawn_cols@.take(i as int + 1),
                    x,
                ) {
                    is_fresh(#[trigger] self.cells()[0][x])
                } else {
                    self.cells()[0][x] == pre[0][x]
                }) by {
                    lemma_cols_contain_take_step(spawn_cols@, i as int, x);
                }
            }
            i = i + 1;
        }
        proof {
            assert(spawn_cols@.take(total as int) =~= spawn_cols@);
            assert forall|x: int| 0 <= x < width implies (if cols_contain(ecols_g, x)
                || cols_contain(acols_g, x) {
                is_fresh(#[trigger] self.cells()[0][x])
            } else {
                self.cells()[0][x] == pre[0][x]
            }) by {
                lemma_cols_contain_add(ecols_g, acols_g, x);
            }
            assert(parent_choice_ok(
                pre[0],
                self.cells()[0],
                ecols_g,
                acols_g,
                old(self).spawn_count_spec(),
                max_age,
                width as int,
            ));
            assert(parent_phase_ok(
                old(self).cells(),
                self.cells(),
                old(self).spawn_count_spec(),
                old(self).max_age_spec(),
                old(self).width_spec(),
                old(self).height_spec(),
            ));
        }
    }

    /// The child-spawn phase: scanning rows top to bottom, spawn a newborn
    /// cell directly below every cell whose age is exactly 1, propagating
    /// the falling trail one row per tick.
    pub fn spawn_children(&mut self)
        requires
            old(self).wf(),
        ensures
            final(self).wf(),
            final(self).width_spec() == old(self).width_spec(),
            final(self).height_spec() == old(self).height_spec(),
            final(self).spawn_count_spec() == old(self).spawn_count_spec(),
            final(self).max_age_spec() == old(self).max_age_spec(),
            child_phase_ok(
                old(self).cells(),
                final(self).cells(),
                old(self).width_spec(),
                old(self).height_spec(),
            ),
    {
        let height = self.height;
        let width = self.width;
        let mut y: usize = 1;
        while y < height
            invariant
                1 <= y,
                y <= height || y == 1,
                self.width == old(self).width,
                self.height == old(self).height,
                self.spawn_count == old(self).spawn_count,
                self.max_age == old(self).max_age,
                width == self.width,
                height == self.height,
                old(self).wf(),
                self.cells().len() == height as int,
                forall|i: int|
                    0 <= i < height ==> (#[trigger] self.cells()[i]).len() == width as int,
                forall|i: int, j: int|
                    0 <= i < height && 0 <= j < width ==> pos_ok(
                        #[trigger] self.cells()[i][j],
                        self.max_age,
                    ),
                forall|j: int|
                    0 <= j < width && 0 < height ==> #[trigger] self.cells()[0][j] == old(
                        self,
                    ).cells()[0][j],
                forall|r: int, j: int|
                    1 <= r < y && r < height && 0 <= j < width ==> (if child_spawns_at(
                        old(self).cells(),
                        r,
                        j,
                    ) {
                        is_fresh(#[trigger] self.cells()[r][j])
                    } else {
                        self.cells()[r][j] == old(self).cells()[r][j]
                    }),
                forall|r: int, j: int|
                    y <= r < height && 0 <= j < width ==> #[trigger] self.cells()[r][j] == old(
                        self,
                    ).cells()[r][j],
            decreases height - y,
        {
            let mut x: usize = 0;
            while x < width
                invariant
                    1 <= y < height,
                    x <= width,
                    self.width == old(self).width,
                    self.height == old(self).height,
                    self.spawn_count == old(self).spawn_count,
                    self.max_age == old(self).max_age,
                    width == self.width,
                    height == self.height,
                    old(self).wf(),
                    self.cells().len() == height as int,
                    forall|i: int|
                        0 <= i < height ==> (#[trigger] self.cells()[i]).len() == width as int,
                    forall|i: int, j: int|
                        0 <= i < height && 0 <= j < width ==> pos_ok(
                            #[trigger] self.cells()[i][j],
                            self.max_age,
                        ),
                    forall|j: int|
                        0 <= j < width && 0 < height ==> #[trigger] self.cells()[0][j] == old(
                            self,
                        ).cells()[0][j],
                    forall|r: int, j: int|
                        1 <= r < y && 0 <= j < width ==> (if child_spawns_at(
                            old(self).cells(),
                            r,
                            j,
                        ) {
                            is_fresh(#[trigger] self.cells()[r][j])
                        } else {
                            self.cells()[r][j] == old(self).cells()[r][j]
                        }),
                    forall|j: int|
                        0 <= j < x ==> (if child_spawns_at(old(self).cells(), y as int, j) {
                            is_fresh(#[trigger] self.cells()[y as int][j])
                        } else {
                            self.cells()[y as int][j] == old(self).cells()[y as int][j]
                        }),
                    forall|j: int|
                        x <= j < width ==> #[trigger] self.cells()[y as int][j] == old(
                            self,
                        ).cells()[y as int][j],
                    forall|r: int, j: int|
                        y < r < height && 0 <= j < width ==> #[trigger] self.cells()[r][j] == old(
                            self,
                        ).cells()[r][j],
                decreases width - x,
            {
                proof {
                    assert(self.buffer@.len() == self.cells().len());
                    assert(self.buffer@[y - 1]@ == self.cells()[y - 1]);
                }
                let above = self.buffer[y - 1][x];
                let ghost pre = self.cells();
                let ghost prebuf = self.buffer@;
                proof {
                    if y == 1 {
                        assert(above == old(self).cells()[0][x as int]);
                    } else {
                        assert(age_is_one(above) ==> !child_spawns_at(
                            old(self).cells(),
                            y - 1,
                            x as int,
                        ) && above == old(self).cells()[y - 1][x as int]);
                        assert(!age_is_one(above) && child_spawns_at(old(self).cells(), y as int, x as int)
                            ==> age_is_one(old(self).cells()[y - 1][x as int])
                                && !child_spawns_at(old(self).cells(), y - 1, x as int));
                    }
                    assert(age_is_one(above) <==> child_spawns_at(
                        old(self).cells(),
                        y as int,
                        x as int,
                    ));
                }
                let spawn_here = match above {
                    Some(c) => c.age == 1,
                    None => false,
                };
                proof {
                    assert(self.buffer@.len() == self.cells().len());
                    assert(prebuf[y as int]@ == pre[y as int]);
                    assert(self.buffer@[y as int]@ == self.cells()[y as int]);
                }
                if spawn_here {
                    let fresh = Cell::new(&mut self.rng);
                    self.buffer[y][x] = Some(fresh);
                }
                proof {
                    assert forall|i: int| 0 <= i < height && i != y as int implies #[trigger] self
                        .cells()[i] == pre[i] by {
                        assert(self.buffer@[i] == prebuf[i]);
                        assert(self.cells()[i] == self.buffer@[i]@);
                        assert(pre[i] == prebuf[i]@);
                    }
                    assert(self.cells()[y as int] == self.buffer@[y as int]@);
                    assert forall|j: int| 0 <= j < width && j != x as int implies self.cells()[y as int][j]
                        == pre[y as int][j] by {
                        assert(self.buffer@[y as int]@[j] == prebuf[y as int]@[j]);
                    }
                }
                x = x + 1;
            }
            y = y + 1;
        }
    }

    /// One tick: the age phase, then parent-spawn in the top row, then
    /// child-spawn below every cell that just reached age 1.
    pub fn update(&mut self)
        requires
            old(self).wf(),
        ensures
            final(self).wf(),
            final(self).width_spec() == old(self).width_spec(),
            final(self).height_spec() == old(self).height_spec(),
            final(self).spawn_count_spec() == old(self).spawn_count_spec(),
            final(self).max_age_spec() == old(self).max_age_spec(),
            exists|mid: Seq<Seq<Option<Cell>>>|
                #[trigger] parent_phase_ok(
                    age_step(old(self).cells(), old(self).max_age_spec()),
                    mid,
                    old(self).spawn_count_spec(),
                    old(self).max_age_spec(),
                    old(self).width_spec(),
                    old(self).height_spec(),
                ) && child_phase_ok(
                    mid,
                    final(self).cells(),
                    old(self).width_spec(),
                    old(self).height_spec(),
                ),
    {
        self.age();
        self.spawn_parents();
        let ghost mid = self.cells();
        self.spawn_children();
        proof {
            assert(parent_phase_ok(
                age_step(old(self).cells(), old(self).max_age_spec()),
                mid,
                old(self).spawn_count_spec(),
                old(self).max_age_spec(),
                old(self).width_spec(),
                old(self).height_spec(),
            ));
            assert(child_phase_ok(
                mid,
                self.cells(),
                old(self).width_spec(),
                old(self).height_spec(),
            ));
        }
    }

    /// Render the grid to a frame: one cell per position in row-major
    /// order, a blank for every empty position, and for every occupied one
    /// its glyph in the grayscale fade color of its age.
    pub fn render(&self) -> (frame: Vec<Vec<FrameCell>>)
        requires
            self.wf(),
        ensures
            frame@.len() == self.height_spec(),
            forall|y: int|
                0 <= y < self.height_spec() ==> (#[trigger] frame@[y])@.len()
                    == self.width_spec(),
            forall|y: int, x: int|
                0 <= y < self.height_spec() && 0 <= x < self.width_spec()
                    ==> #[trigger] frame@[y]@[x] == frame_cell_spec(
                    self.cells()[y][x],
                    self.max_age_spec(),
                ),
    {
        let height = self.height;
        let width = self.width;
        let mut frame: Vec<Vec<FrameCell>> = Vec::new();
        let mut y: usize = 0;
        while y < height
            invariant
                y <= height,
                self.wf(),
                height as int == self.height_spec(),
                width as int == self.width_spec(),
                frame@.len() == y,
                forall|r: int|
                    0 <= r < y ==> (#[trigger] frame@[r])@.len() == width as int,
                forall|r: int, j: int|
                    0 <= r < y && 0 <= j < width ==> #[trigger] frame@[r]@[j] == frame_cell_spec(
                        self.cells()[r][j],
                        self.max_age_spec(),
                    ),
            decreases height - y,
        {
            let mut row: Vec<FrameCell> = Vec::new();
            let mut x: usize = 0;
            while x < width
                invariant
                    y < height,
                    x <= width,
                    self.wf(),
                    height as int == self.height_spec(),
                    width as int == self.width_spec(),
                    row@.len() == x,
                    forall|j: int|
                        0 <= j < x ==> #[trigger] row@[j] == frame_cell_spec(
                            self.cells()[y as int][j],
                            self.max_age_spec(),
                        ),
                decreases width - x,
            {
                proof {
                    assert(self.buffer@.len() == self.cells().len());
                    assert(self.buffer@[y as int]@ == self.cells()[y as int]);
                }
                let oc = self.buffer[y][x];
                let fc = match oc {
                    Some(c) => {
                        let color = crate::color::fade_color(c.age, self.max_age);
                        FrameCell::Glyph { content: c.content, color }
                    },
                    None => FrameCell::Blank,
                };
                proof {
                    match oc {
                        Some(c) => {
                            crate::color::lemma_brightness_bounds(c.age, self.max_age_spec());
                        },
                        None => {},
                    }
                    assert(fc == frame_cell_spec(
                        self.cells()[y as int][x as int],
                        self.max_age_spec(),
                    ));
                }
                row.push(fc);
                x = x + 1;
            }
            frame.push(row);
            y = y + 1;
        }
        frame
    }
}

} // verus!
