//! The state of a race as the live timing feed describes it, and how one
//! message of the feed changes it.
use vstd::prelude::*;
use crate::config::{Columns, RaceConfig};
use crate::stats::{statistics_defined, lap_statistics, lap_statistics_checked};
use crate::text::{
    chars_of, string_from_chars, texts, opt_text, find, find_from, contains, starts_with,
    split, lines, find_chars, contains_chars, matches_at, split_chars, lines_chars, chars_eq, starts_with_chars, sub_chars, lemma_find_from,
};

verus! {

/// What the grid shows of one kart.
pub struct GridData {
    pub kart: String,
    pub driver: String,
    pub position: String,
    pub best: String,
    pub last: String,
    pub gap: String,
    pub lap: String,
    pub ontrack: String,
    pub pit: String,
    pub history: Vec<String>,
    pub median: Option<String>,
    pub average: Option<String>,
    pub recent: Option<String>,
}

/// One stint of a kart, recorded when it enters the pit lane.
pub struct StintData {
    pub kart: String,
    pub driver: String,
    pub lap: String,
    pub median: Option<String>,
    pub average: Option<String>,
    pub recent: Option<String>,
    pub history: Vec<String>,
}

/// The grid, one entry per row id, and the stints recorded so far.
pub struct RaceData {
    pub grid: Vec<(String, GridData)>,
    pub pit_stops: Vec<StintData>,
}

pub struct GridView {
    pub kart: Seq<char>,
    pub driver: Seq<char>,
    pub position: Seq<char>,
    pub best: Seq<char>,
    pub last: Seq<char>,
    pub gap: Seq<char>,
    pub lap: Seq<char>,
    pub ontrack: Seq<char>,
    pub pit: Seq<char>,
    pub history: Seq<Seq<char>>,
    pub median: Option<Seq<char>>,
    pub average: Option<Seq<char>>,
    pub recent: Option<Seq<char>>,
}

pub struct StintView {
    pub kart: Seq<char>,
    pub driver: Seq<char>,
    pub lap: Seq<char>,
    pub median: Option<Seq<char>>,
    pub average: Option<Seq<char>>,
    pub recent: Option<Seq<char>>,
    pub history: Seq<Seq<char>>,
}

pub struct RaceView {
    pub grid: Seq<(Seq<char>, GridView)>,
    pub pit_stops: Seq<StintView>,
}

impl View for GridData {
    type V = GridView;

    open spec fn view(&self) -> GridView {
        GridView {
            kart: self.kart@,
            driver: self.driver@,
            position: self.position@,
            best: self.best@,
            last: self.last@,
            gap: self.gap@,
            lap: self.lap@,
            ontrack: self.ontrack@,
            pit: self.pit@,
            history: texts(self.history@),
            median: opt_text(self.median),
            average: opt_text(self.average),
            recent: opt_text(self.recent),
        }
    }
}

impl View for StintData {
    type V = StintView;

    open spec fn view(&self) -> StintView {
        StintView {
            kart: self.kart@,
            driver: self.driver@,
            lap: self.lap@,
            median: opt_text(self.median),
            average: opt_text(self.average),
            recent: opt_text(self.recent),
            history: texts(self.history@),
        }
    }
}

pub open spec fn grid_view(g: Seq<(String, GridData)>) -> Seq<(Seq<char>, GridView)> {
    g.map_values(|e: (String, GridData)| (e.0@, e.1@))
}

pub open spec fn stints_view(s: Seq<StintData>) -> Seq<StintView> {
    s.map_values(|d: StintData| d@)
}

impl View for RaceData {
    type V = RaceView;

    open spec fn view(&self) -> RaceView {
        RaceView { grid: grid_view(self.grid@), pit_stops: stints_view(self.pit_stops@) }
    }
}

pub open spec fn races_view(s: Seq<RaceData>) -> Seq<RaceView> {
    s.map_values(|d: RaceData| d@)
}

impl RaceData {
    /// A race with an empty grid and no stints.
    pub fn new() -> (r: RaceData)
        ensures
            r@.grid.len() == 0,
            r@.pit_stops.len() == 0,
            race_wf(r@),
    {
        RaceData { grid: Vec::new(), pit_stops: Vec::new() }
    }
}

fn clone_opt(o: &Option<String>) -> (r: Option<String>)
    ensures
        opt_text(r) == opt_text(*o),
{
    match o {
        Some(s) => Some(s.clone()),
        None => None,
    }
}

fn clone_strings(v: &Vec<String>) -> (r: Vec<String>)
    ensures
        texts(r@) == texts(v@),
{
    let mut r: Vec<String> = Vec::new();
    let mut i: usize = 0;
    while i < v.len()
        invariant
            i <= v.len(),
            r.len() == i,
            forall|j: int| 0 <= j < i ==> (#[trigger] r@[j])@ == v@[j]@,
        decreases v.len() - i,
    {
        r.push(v[i].clone());
        i += 1;
    }
    assert(texts(r@) =~= texts(v@));
    r
}

fn clone_grid_data(g: &GridData) -> (r: GridData)
    ensures
        r@ == g@,
{
    GridData {
        kart: g.kart.clone(),
        driver: g.driver.clone(),
        position: g.position.clone(),
        best: g.best.clone(),
        last: g.last.clone(),
        gap: g.gap.clone(),
        lap: g.lap.clone(),
        ontrack: g.ontrack.clone(),
        pit: g.pit.clone(),
        history: clone_strings(&g.history),
        median: clone_opt(&g.median),
        average: clone_opt(&g.average),
        recent: clone_opt(&g.recent),
    }
}

fn clone_stint(s: &StintData) -> (r: StintData)
    ensures
        r@ == s@,
{
    StintData {
        kart: s.kart.clone(),
        driver: s.driver.clone(),
        lap: s.lap.clone(),
        median: clone_opt(&s.median),
        average: clone_opt(&s.average),
        recent: clone_opt(&s.recent),
        history: clone_strings(&s.history),
    }
}

fn clone_stints(v: &Vec<StintData>) -> (r: Vec<StintData>)
    ensures
        stints_view(r@) == stints_view(v@),
{
    let mut r: Vec<StintData> = Vec::new();
    let mut i: usize = 0;
    while i < v.len()
        invariant
            i <= v.len(),
            r.len() == i,
            forall|j: int| 0 <= j < i ==> (#[trigger] r@[j])@ == v@[j]@,
        decreases v.len() - i,
    {
        r.push(clone_stint(&v[i]));
        i += 1;
    }
    assert(stints_view(r@) =~= stints_view(v@));
    r
}

fn clone_grid(v: &Vec<(String, GridData)>) -> (r: Vec<(String, GridData)>)
    ensures
        grid_view(r@) == grid_view(v@),
{
    let mut r: Vec<(String, GridData)> = Vec::new();
    let mut i: usize = 0;
    while i < v.len()
        invariant
            i <= v.len(),
            r.len() == i,
            forall|j: int|
                0 <= j < i ==> (#[trigger] r@[j]).0@ == v@[j].0@ && r@[j].1@ == v@[j].1@,
        decreases v.len() - i,
    {
        let e = (v[i].0.clone(), clone_grid_data(&v[i].1));
        r.push(e);
        i += 1;
    }
    assert(grid_view(r@) =~= grid_view(v@));
    r
}

fn clone_race(d: &RaceData) -> (r: RaceData)
    ensures
        r@ == d@,
{
    RaceData { grid: clone_grid(&d.grid), pit_stops: clone_stints(&d.pit_stops) }
}

/// The text of the cell in `row` that `column` names: from the first `'>'`
/// at or after the first occurrence of `column` to the next `"</"`; empty
/// when `column` does not occur. `None` where a `'>'` or the `"</"` after it
/// is missing (a row that cannot be read).
pub open spec fn cell_text(row: Seq<char>, column: Seq<char>) -> Option<Seq<char>> {
    match find(row, column) {
        None => Some(seq![]),
        Some(at) => match find_from(row, seq!['>'], at) {
            None => None,
            Some(gt) => match find_from(row, "</"@, gt + 1) {
                None => None,
                Some(end) => Some(row.subrange(gt + 1, end)),
            },
        },
    }
}

/// The characters of the column names of a race profile.
pub struct ColumnChars {
    pub kart: Vec<char>,
    pub driver: Vec<char>,
    pub position: Vec<char>,
    pub best: Vec<char>,
    pub last: Vec<char>,
    pub gap: Vec<char>,
    pub lap: Vec<char>,
    pub ontrack: Vec<char>,
    pub pit: Vec<char>,
}

impl View for ColumnChars {
    type V = Columns;

    open spec fn view(&self) -> Columns {
        Columns {
            kart: self.kart@,
            driver: self.driver@,
            position: self.position@,
            best: self.best@,
            last: self.last@,
            gap: self.gap@,
            lap: self.lap@,
            ontrack: self.ontrack@,
            pit: self.pit@,
        }
    }
}

fn column_chars(config: &RaceConfig) -> (r: ColumnChars)
    ensures
        r@ == config@,
{
    ColumnChars {
        kart: chars_of(config.kart),
        driver: chars_of(config.driver),
        position: chars_of(config.position),
        best: chars_of(config.best),
        last: chars_of(config.last),
        gap: chars_of(config.gap),
        lap: chars_of(config.lap),
        ontrack: chars_of(config.ontrack),
        pit: chars_of(config.pit),
    }
}

/// The cell text, `None` where `cell_text` is `None`.
fn cell_chars(row: &[char], column: &[char]) -> (r: Option<Vec<char>>)
    ensures
        match r {
            Some(v) => cell_text(row@, column@) == Some(v@),
            None => cell_text(row@, column@) is None,
        },
{
    let gt_pat: Vec<char> = vec!['>'];
    assert(gt_pat@ =~= seq!['>']);
    let close = chars_of("</");
    match find_chars(row, column, 0) {
        None => {
            let empty: Vec<char> = Vec::new();
            assert(empty@ =~= seq![]);
            Some(empty)
        },
        Some(at) => match find_chars(row, &gt_pat, at) {
            None => None,
            Some(gt) => {
                proof {
                    lemma_find_from(row@, gt_pat@, at as int);
                    assert(matches_at(row@, gt_pat@, gt as int));
                    assert(gt + 1 <= row@.len());
                    assert(gt < row.len());
                }
                match find_chars(row, &close, gt + 1) {
                    None => None,
                    Some(end) => {
                        proof {
                            lemma_find_from(row@, close@, gt + 1);
                        }
                        Some(sub_chars(row, gt + 1, end))
                    },
                }
            },
        },
    }
}

/// The text of the cell of `row` that `column` names (see `cell_text`).
pub fn extract_data(row: &str, column: &str) -> (r: String)
    requires
        cell_text(row@, column@) is Some,
    ensures
        cell_text(row@, column@) == Some(r@),
{
    let rc = chars_of(row);
    let cc = chars_of(column);
    match cell_chars(&rc, &cc) {
        Some(v) => string_from_chars(&v),
        None => String::new(),
    }
}

/// The first grid entry at or after position `i` whose row id is `id`.
pub open spec fn key_index_from(grid: Seq<(Seq<char>, GridView)>, id: Seq<char>, i: int) -> Option<
    int,
>
    decreases grid.len() - i,
{
    if i < 0 || i >= grid.len() {
        None
    } else if grid[i].0 == id {
        Some(i)
    } else {
        key_index_from(grid, id, i + 1)
    }
}

/// The grid entry whose row id is `id`.
pub open spec fn key_index(grid: Seq<(Seq<char>, GridView)>, id: Seq<char>) -> Option<int> {
    key_index_from(grid, id, 0)
}

/// What `key_index_from` returns is the first entry with that row id.
pub proof fn lemma_key_index_from(grid: Seq<(Seq<char>, GridView)>, id: Seq<char>, i: int)
    requires
        0 <= i,
    ensures
        match key_index_from(grid, id, i) {
            Some(k) => {
                &&& i <= k < grid.len()
                &&& grid[k].0 == id
                &&& forall|j: int| i <= j < k ==> (#[trigger] grid[j]).0 != id
            },
            None => forall|j: int| i <= j < grid.len() ==> (#[trigger] grid[j]).0 != id,
        },
    decreases grid.len() - i,
{
    if i < grid.len() && grid[i].0 != id {
        lemma_key_index_from(grid, id, i + 1);
    }
}

/// A grid row as the first table of a race shows it: no pit lap yet, the
/// last lap as the only history entry, the statistics empty.
pub open spec fn new_row(
    position: Seq<char>,
    kart: Seq<char>,
    driver: Seq<char>,
    best: Seq<char>,
    last: Seq<char>,
    lap: Seq<char>,
    gap: Seq<char>,
    ontrack: Seq<char>,
) -> GridView {
    GridView {
        kart,
        driver,
        position,
        best,
        last,
        gap,
        lap,
        ontrack,
        pit: seq![],
        history: seq![last],
        median: Some(seq![]),
        average: Some(seq![]),
        recent: Some(seq![]),
    }
}

/// What one `<tr` piece of a grid table brings: `Some(None)` for a piece
/// that is no kart row (no `data-id="r`) or is the header row (holds
/// `r0`); `Some(Some((id, row)))` for a kart row, `id` running from after
/// the first `r` that follows `data-id="` to the next `"`; `None` where the
/// row cannot be read (a missing `"` or cell end).
pub open spec fn row_entry(row: Seq<char>, cfg: Columns) -> Option<Option<(Seq<char>, GridView)>> {
    if !contains(row, "data-id=\"r"@) || contains(row, "r0"@) {
        Some(None)
    } else {
        match find(row, "data-id=\""@) {
            None => Some(None),
            Some(at) => match find_from(row, seq!['r'], at) {
                None => None,
                Some(rp) => match find_from(row, seq!['"'], rp + 1) {
                    None => None,
                    Some(end) => {
                        let position = cell_text(row, cfg.position);
                        let kart = cell_text(row, cfg.kart);
                        let driver = cell_text(row, cfg.driver);
                        let best = cell_text(row, cfg.best);
                        let last = cell_text(row, cfg.last);
                        let lap = cell_text(row, cfg.lap);
                        let gap = cell_text(row, cfg.gap);
                        let ontrack = cell_text(row, cfg.ontrack);
                        if position is None || kart is None || driver is None || best is None
                            || last is None || lap is None || gap is None || ontrack is None {
                            None
                        } else {
                            Some(
                                Some(
                                    (
                                        row.subrange(rp + 1, end),
                                        new_row(
                                            position.unwrap(),
                                            kart.unwrap(),
                                            driver.unwrap(),
                                            best.unwrap(),
                                            last.unwrap(),
                                            lap.unwrap(),
                                            gap.unwrap(),
                                            ontrack.unwrap(),
                                        ),
                                    ),
                                ),
                            )
                        }
                    },
                },
            },
        }
    }
}

/// A kart row enters the grid unless its row id is there already.
pub open spec fn row_step(st: RaceView, row: Seq<char>, cfg: Columns) -> Option<RaceView> {
    match row_entry(row, cfg) {
        None => None,
        Some(None) => Some(st),
        Some(Some((id, g))) => if key_index(st.grid, id) is Some {
            Some(st)
        } else {
            Some(RaceView { grid: st.grid.push((id, g)), pit_stops: st.pit_stops })
        },
    }
}

/// The pieces of a grid table, applied in order.
pub open spec fn apply_rows(st: RaceView, rows: Seq<Seq<char>>, cfg: Columns) -> Option<RaceView>
    decreases rows.len(),
{
    if rows.len() == 0 {
        Some(st)
    } else {
        match apply_rows(st, rows.drop_last(), cfg) {
            None => None,
            Some(s1) => row_step(s1, rows.last(), cfg),
        }
    }
}

/// The position of the grid entry whose row id is `id`.
fn find_row(grid: &Vec<(String, GridData)>, id: &String) -> (r: Option<usize>)
    ensures
        match r {
            Some(k) => key_index(grid_view(grid@), id@) == Some(k as int),
            None => key_index(grid_view(grid@), id@) is None,
        },
{
    let ghost g = grid_view(grid@);
    let mut i: usize = 0;
    while i < grid.len()
        invariant
            i <= grid.len(),
            g == grid_view(grid@),
            key_index(g, id@) == key_index_from(g, id@, i as int),
        decreases grid.len() - i,
    {
        if grid[i].0 == *id {
            return Some(i);
        }
        i += 1;
    }
    None
}

/// The piece patterns of the feed, as characters.
struct Markers {
    kart_row: Vec<char>,
    header_row: Vec<char>,
    id_start: Vec<char>,
    r: Vec<char>,
    quote: Vec<char>,
    c: Vec<char>,
    bar: Vec<char>,
    row_start: Vec<char>,
    new_race: Vec<char>,
    table: Vec<char>,
    part: Vec<char>,
}

impl Markers {
    spec fn wf(&self) -> bool {
        &&& self.kart_row@ == "data-id=\"r"@
        &&& self.header_row@ == "r0"@
        &&& self.id_start@ == "data-id=\""@
        &&& self.r@ == seq!['r']
        &&& self.quote@ == seq!['"']
        &&& self.c@ == seq!['c']
        &&& self.bar@ == seq!['|']
        &&& self.row_start@ == "<tr"@
        &&& self.new_race@ == "init|"@
        &&& self.table@ == "<tbody>"@
        &&& self.part@ == "grid||"@
    }

    fn new() -> (r: Markers)
        ensures
            r.wf(),
    {
        let r = Markers {
            kart_row: chars_of("data-id=\"r"),
            header_row: chars_of("r0"),
            id_start: chars_of("data-id=\""),
            r: vec!['r'],
            quote: vec!['"'],
            c: vec!['c'],
            bar: vec!['|'],
            row_start: chars_of("<tr"),
            new_race: chars_of("init|"),
            table: chars_of("<tbody>"),
            part: chars_of("grid||"),
        };
        assert(r.r@ =~= seq!['r']);
        assert(r.quote@ =~= seq!['"']);
        assert(r.c@ =~= seq!['c']);
        assert(r.bar@ =~= seq!['|']);
        r
    }
}

/// Applies one piece of a grid table; `false` where `row_step` is `None`.
fn apply_row(race: &mut RaceData, row: &[char], cols: &ColumnChars, m: &Markers) -> (ok: bool)
    requires
        m.wf(),
    ensures
        ok == (row_step(old(race)@, row@, cols@) is Some),
        ok ==> row_step(old(race)@, row@, cols@) == Some(final(race)@),
{
    if !contains_chars(row, &m.kart_row) || contains_chars(row, &m.header_row) {
        return true;
    }
    let at = match find_chars(row, &m.id_start, 0) {
        Some(at) => at,
        None => {
            return true;
        },
    };
    let rp = match find_chars(row, &m.r, at) {
        Some(rp) => rp,
        None => {
            return false;
        },
    };
    proof {
        lemma_find_from(row@, m.r@, at as int);
        assert(matches_at(row@, m.r@, rp as int));
        assert(rp < row.len());
    }
    let end = match find_chars(row, &m.quote, rp + 1) {
        Some(end) => end,
        None => {
            return false;
        },
    };
    proof {
        lemma_find_from(row@, m.quote@, rp + 1);
    }
    let position = cell_chars(row, &cols.position);
    let kart = cell_chars(row, &cols.kart);
    let driver = cell_chars(row, &cols.driver);
    let best = cell_chars(row, &cols.best);
    let last = cell_chars(row, &cols.last);
    let lap = cell_chars(row, &cols.lap);
    let gap = cell_chars(row, &cols.gap);
    let ontrack = cell_chars(row, &cols.ontrack);
    match (position, kart, driver, best, last, lap, gap, ontrack) {
        (Some(position), Some(kart), Some(driver), Some(best), Some(last), Some(lap), Some(gap), Some(ontrack)) => {
            let id = string_from_chars(&sub_chars(row, rp + 1, end));
            match find_row(&race.grid, &id) {
                Some(_) => true,
                None => {
                    let last_text = string_from_chars(&last);
                    let mut history: Vec<String> = Vec::new();
                    history.push(last_text.clone());
                    let g = GridData {
                        kart: string_from_chars(&kart),
                        driver: string_from_chars(&driver),
                        position: string_from_chars(&position),
                        best: string_from_chars(&best),
                        last: last_text,
                        gap: string_from_chars(&gap),
                        lap: string_from_chars(&lap),
                        ontrack: string_from_chars(&ontrack),
                        pit: String::new(),
                        history,
                        median: Some(String::new()),
                        average: Some(String::new()),
                        recent: Some(String::new()),
                    };
                    let ghost before = race@;
                    race.grid.push((id, g));
                    proof {
                        assert(texts(g.history@) =~= seq![last@]);
                        assert(grid_view(race.grid@) =~= before.grid.push((id@, g@)));
                    }
                    true
                },
            }
        },
        _ => false,
    }
}

/// Applies the pieces of a grid table in order; `false` where
/// `apply_rows` is `None`.
fn apply_table(race: &mut RaceData, part: &[char], cols: &ColumnChars, m: &Markers) -> (ok: bool)
    requires
        m.wf(),
    ensures
        ok == (apply_rows(old(race)@, split(part@, "<tr"@), cols@) is Some),
        ok ==> apply_rows(old(race)@, split(part@, "<tr"@), cols@) == Some(final(race)@),
{
    proof {
        reveal_strlit("<tr");
    }
    let rows = split_chars(part, &m.row_start);
    let ghost all = split(part@, "<tr"@);
    let ghost start = race@;
    let mut i: usize = 0;
    while i < rows.len()
        invariant
            m.wf(),
            start == old(race)@,
            all == split(part@, "<tr"@),
            i <= rows.len(),
            rows.len() == all.len(),
            forall|k: int| 0 <= k < rows.len() ==> (#[trigger] rows[k])@ == all[k],
            apply_rows(start, all.take(i as int), cols@) == Some(race@),
        decreases rows.len() - i,
    {
        assert(all.take(i + 1).drop_last() =~= all.take(i as int));
        assert(all.take(i + 1).last() == rows[i as int]@);
        let ghost pre = race@;
        let ok = apply_row(race, &rows[i], cols, m);
        if !ok {
            proof {
                assert(row_step(pre, all.take(i + 1).last(), cols@) is None);
                assert(apply_rows(start, all.take(i + 1), cols@) is None);
                lemma_apply_rows_stops(start, all, cols@, i + 1);
            }
            return false;
        }
        i += 1;
    }
    assert(all.take(rows.len() as int) =~= all);
    true
}

/// Once a table piece cannot be read, the whole table cannot.
proof fn lemma_apply_rows_stops(st: RaceView, rows: Seq<Seq<char>>, cfg: Columns, i: int)
    requires
        0 <= i <= rows.len(),
        apply_rows(st, rows.take(i), cfg) is None,
    ensures
        apply_rows(st, rows, cfg) is None,
    decreases rows.len() - i,
{
    if i < rows.len() {
        assert(rows.take(i + 1).drop_last() =~= rows.take(i));
        lemma_apply_rows_stops(st, rows, cfg, i + 1);
    } else {
        assert(rows.take(i) =~= rows);
    }
}

/// The data that a timing line sets.
#[derive(Clone, Copy)]
pub enum Field {
    Driver,
    Position,
    Gap,
    Best,
    Last,
    Lap,
    Ontrack,
    Pit,
}

/// The datum that a grid column holds, looked up in this order: driver,
/// position, gap, best, last, lap, on track, pit.
pub open spec fn field_of(column: Seq<char>, cfg: Columns) -> Option<Field> {
    if column == cfg.driver {
        Some(Field::Driver)
    } else if column == cfg.position {
        Some(Field::Position)
    } else if column == cfg.gap {
        Some(Field::Gap)
    } else if column == cfg.best {
        Some(Field::Best)
    } else if column == cfg.last {
        Some(Field::Last)
    } else if column == cfg.lap {
        Some(Field::Lap)
    } else if column == cfg.ontrack {
        Some(Field::Ontrack)
    } else if column == cfg.pit {
        Some(Field::Pit)
    } else {
        None
    }
}

/// What one timing line sets. A line such as `r12c7|tn|1:02.345` starts
/// with `r`; the row id runs from after that `r` to the first `c`, the
/// column from that `c` to the next `|`, and the value is the third
/// `|`-separated field. `Some(None)` for a line that sets nothing (no
/// leading `r`, no `c`, fewer than three fields, or a column that holds no
/// datum); `None` where the `|` after the column is missing.
pub open spec fn line_update(line: Seq<char>, cfg: Columns) -> Option<
    Option<(Seq<char>, Field, Seq<char>)>,
> {
    if !starts_with(line, seq!['r']) {
        Some(None)
    } else {
        match find(line, seq!['c']) {
            None => Some(None),
            Some(cm) => match find_from(line, seq!['|'], cm) {
                None => None,
                Some(ce) => {
                    let fields = split(line, seq!['|']);
                    if fields.len() <= 2 {
                        Some(None)
                    } else {
                        match field_of(line.subrange(cm, ce), cfg) {
                            None => Some(None),
                            Some(f) => Some(Some((line.subrange(1, cm), f, fields[2]))),
                        }
                    }
                },
            },
        }
    }
}

/// The lap history after a new last lap `v`: an empty final entry is
/// replaced by `v`; otherwise `v` is added unless it repeats the final entry.
pub open spec fn next_history(h: Seq<Seq<char>>, v: Seq<char>) -> Seq<Seq<char>> {
    if h.len() == 0 {
        seq![v]
    } else if h.last().len() == 0 {
        h.update(h.len() - 1, v)
    } else if h.last() != v {
        h.push(v)
    } else {
        h
    }
}

pub open spec fn or_empty(o: Option<Seq<char>>) -> Seq<char> {
    match o {
        Some(t) => t,
        None => seq![],
    }
}

/// The stint that a kart ends when it enters the pit lane.
pub open spec fn stint_of(g: GridView) -> StintView {
    StintView {
        kart: g.kart,
        driver: g.driver,
        lap: g.lap,
        median: Some(or_empty(g.median)),
        average: Some(or_empty(g.average)),
        recent: Some(or_empty(g.recent)),
        history: g.history,
    }
}

/// A grid row with one plain datum set.
pub open spec fn set_field(g: GridView, f: Field, v: Seq<char>) -> GridView {
    match f {
        Field::Driver => GridView { driver: v, ..g },
        Field::Position => GridView { position: v, ..g },
        Field::Gap => GridView { gap: v, ..g },
        Field::Best => GridView { best: v, ..g },
        Field::Lap => GridView { lap: v, ..g },
        Field::Ontrack => GridView { ontrack: v, ..g },
        _ => g,
    }
}

/// A timing update of the row `id`; nothing where the grid has no such row.
/// A new last lap extends the history and recomputes the statistics (`None`
/// where they overflow); a pit entry sets the pit lap to the current lap,
/// records the stint and empties the history.
pub open spec fn apply_update(st: RaceView, id: Seq<char>, f: Field, v: Seq<char>) -> Option<
    RaceView,
> {
    match key_index(st.grid, id) {
        None => Some(st),
        Some(k) => {
            let g = st.grid[k].1;
            match f {
                Field::Last => {
                    let h = next_history(g.history, v);
                    if !statistics_defined(h) {
                        None
                    } else {
                        let t = lap_statistics(h);
                        Some(
                            RaceView {
                                grid: st.grid.update(
                                    k,
                                    (
                                        id,
                                        GridView {
                                            last: v,
                                            history: h,
                                            median: t.0,
                                            average: t.1,
                                            recent: t.2,
                                            ..g
                                        },
                                    ),
                                ),
                                pit_stops: st.pit_stops,
                            },
                        )
                    }
                },
                Field::Pit => Some(
                    RaceView {
                        grid: st.grid.update(k, (id, GridView { pit: g.lap, history: seq![], ..g })),
                        pit_stops: st.pit_stops.push(stint_of(g)),
                    },
                ),
                _ => Some(
                    RaceView { grid: st.grid.update(k, (id, set_field(g, f, v))), pit_stops: st.pit_stops },
                ),
            }
        },
    }
}

/// One timing line applied.
pub open spec fn line_step(st: RaceView, line: Seq<char>, cfg: Columns) -> Option<RaceView> {
    match line_update(line, cfg) {
        None => None,
        Some(None) => Some(st),
        Some(Some((id, f, v))) => apply_update(st, id, f, v),
    }
}

/// Timing lines applied in order.
pub open spec fn apply_lines(st: RaceView, lines: Seq<Seq<char>>, cfg: Columns) -> Option<RaceView>
    decreases lines.len(),
{
    if lines.len() == 0 {
        Some(st)
    } else {
        match apply_lines(st, lines.drop_last(), cfg) {
            None => None,
            Some(s1) => line_step(s1, lines.last(), cfg),
        }
    }
}

fn field_of_chars(column: &[char], cols: &ColumnChars) -> (r: Option<Field>)
    ensures
        r == field_of(column@, cols@),
{
    if chars_eq(column, &cols.driver) {
        Some(Field::Driver)
    } else if chars_eq(column, &cols.position) {
        Some(Field::Position)
    } else if chars_eq(column, &cols.gap) {
        Some(Field::Gap)
    } else if chars_eq(column, &cols.best) {
        Some(Field::Best)
    } else if chars_eq(column, &cols.last) {
        Some(Field::Last)
    } else if chars_eq(column, &cols.lap) {
        Some(Field::Lap)
    } else if chars_eq(column, &cols.ontrack) {
        Some(Field::Ontrack)
    } else if chars_eq(column, &cols.pit) {
        Some(Field::Pit)
    } else {
        None
    }
}

fn text_or_empty(o: &Option<String>) -> (r: String)
    ensures
        r@ == or_empty(opt_text(*o)),
{
    match o {
        Some(t) => t.clone(),
        None => String::new(),
    }
}

/// Applies a timing update; `false` where `apply_update` is `None`.
fn apply_update_exec(race: &mut RaceData, id: &String, f: Field, v: &[char]) -> (ok: bool)
    ensures
        ok == (apply_update(old(race)@, id@, f, v@) is Some),
        ok ==> apply_update(old(race)@, id@, f, v@) == Some(final(race)@),
{
    let k = match find_row(&race.grid, id) {
        None => {
            return true;
        },
        Some(k) => k,
    };
    proof {
        lemma_key_index_from(race@.grid, id@, 0);
    }
    let ghost before = race@;
    let ghost g0 = race.grid@[k as int].1@;
    assert(grid_view(race.grid@)[k as int] == (race.grid@[k as int].0@, g0));
    let (key, mut g) = race.grid.remove(k);
    assert(key@ == id@);
    let vs = string_from_chars(v);
    match f {
        Field::Driver => {
            g.driver = vs;
        },
        Field::Position => {
            g.position = vs;
        },
        Field::Gap => {
            g.gap = vs;
        },
        Field::Best => {
            g.best = vs;
        },
        Field::Lap => {
            g.lap = vs;
        },
        Field::Ontrack => {
            g.ontrack = vs;
        },
        Field::Last => {
            g.last = vs.clone();
            let n = g.history.len();
            let ghost h0 = texts(g.history@);
            if n > 0 {
                if g.history[n - 1].as_str().is_empty() {
                    g.history.set(n - 1, vs);
                } else if !(g.history[n - 1] == vs) {
                    g.history.push(vs);
                }
            } else {
                g.history.push(vs);
            }
            assert(texts(g.history@) =~= next_history(h0, v@));
            match lap_statistics_checked(g.history.as_slice()) {
                None => {
                    return false;
                },
                Some(t) => {
                    let (m, a, r) = t;
                    g.median = m;
                    g.average = a;
                    g.recent = r;
                },
            }
        },
        Field::Pit => {
            g.pit = g.lap.clone();
            let stint = StintData {
                kart: g.kart.clone(),
                driver: g.driver.clone(),
                history: clone_strings(&g.history),
                median: Some(text_or_empty(&g.median)),
                average: Some(text_or_empty(&g.average)),
                recent: Some(text_or_empty(&g.recent)),
                lap: g.pit.clone(),
            };
            let ghost stints0 = stints_view(race.pit_stops@);
            race.pit_stops.push(stint);
            assert(stints_view(race.pit_stops@) =~= stints0.push(stint_of(g0)));
            g.history = Vec::new();
            assert(texts(g.history@) =~= seq![]);
        },
    }
    let ghost g1 = g@;
    race.grid.insert(k, (key, g));
    assert(grid_view(race.grid@) =~= before.grid.update(k as int, (id@, g1)));
    true
}

/// Applies one timing line; `false` where `line_step` is `None`.
fn apply_line(race: &mut RaceData, line: &[char], cols: &ColumnChars, m: &Markers) -> (ok: bool)
    requires
        m.wf(),
    ensures
        ok == (line_step(old(race)@, line@, cols@) is Some),
        ok ==> line_step(old(race)@, line@, cols@) == Some(final(race)@),
{
    if !starts_with_chars(line, &m.r) {
        return true;
    }
    let cm = match find_chars(line, &m.c, 0) {
        None => {
            return true;
        },
        Some(cm) => cm,
    };
    let ce = match find_chars(line, &m.bar, cm) {
        None => {
            return false;
        },
        Some(ce) => ce,
    };
    proof {
        lemma_find_from(line@, m.c@, 0);
        lemma_find_from(line@, m.bar@, cm as int);
        assert(line@.subrange(0, 1)[0] == line@[0]);
        assert(line@.subrange(cm as int, cm + 1)[0] == line@[cm as int]);
        assert(1 <= cm);
    }
    let fields = split_chars(line, &m.bar);
    if fields.len() <= 2 {
        return true;
    }
    let column = sub_chars(line, cm, ce);
    let f = match field_of_chars(&column, cols) {
        None => {
            return true;
        },
        Some(f) => f,
    };
    let id = string_from_chars(&sub_chars(line, 1, cm));
    apply_update_exec(race, &id, f, &fields[2])
}

/// Once a timing line cannot be read, the whole text cannot.
proof fn lemma_apply_lines_stops(st: RaceView, lines: Seq<Seq<char>>, cfg: Columns, i: int)
    requires
        0 <= i <= lines.len(),
        apply_lines(st, lines.take(i), cfg) is None,
    ensures
        apply_lines(st, lines, cfg) is None,
    decreases lines.len() - i,
{
    if i < lines.len() {
        assert(lines.take(i + 1).drop_last() =~= lines.take(i));
        lemma_apply_lines_stops(st, lines, cfg, i + 1);
    } else {
        assert(lines.take(i) =~= lines);
    }
}

/// Applies the lines of a text in order; `false` where `apply_lines` is
/// `None`.
fn apply_text(race: &mut RaceData, part: &[char], cols: &ColumnChars, m: &Markers) -> (ok: bool)
    requires
        m.wf(),
    ensures
        ok == (apply_lines(old(race)@, lines(part@), cols@) is Some),
        ok ==> apply_lines(old(race)@, lines(part@), cols@) == Some(final(race)@),
{
    let ls = lines_chars(part);
    let ghost all = lines(part@);
    let ghost start = race@;
    let mut i: usize = 0;
    while i < ls.len()
        invariant
            m.wf(),
            start == old(race)@,
            all == lines(part@),
            i <= ls.len(),
            ls.len() == all.len(),
            forall|k: int| 0 <= k < ls.len() ==> (#[trigger] ls[k])@ == all[k],
            apply_lines(start, all.take(i as int), cols@) == Some(race@),
        decreases ls.len() - i,
    {
        assert(all.take(i + 1).drop_last() =~= all.take(i as int));
        assert(all.take(i + 1).last() == ls[i as int]@);
        let ghost pre = race@;
        let ok = apply_line(race, &ls[i], cols, m);
        if !ok {
            proof {
                assert(line_step(pre, all.take(i + 1).last(), cols@) is None);
                assert(apply_lines(start, all.take(i + 1), cols@) is None);
                lemma_apply_lines_stops(start, all, cols@, i + 1);
            }
            return false;
        }
        i += 1;
    }
    assert(all.take(ls.len() as int) =~= all);
    true
}

/// One `grid||` part of a message. A part that starts with `init|` while the
/// grid holds rows opens a new race: the race so far is handed out for
/// saving and the grid starts empty (the stints stay). A part that starts
/// with `<tbody>` is a grid table; any other part is timing lines.
pub open spec fn part_step(st: RaceView, part: Seq<char>, cfg: Columns) -> Option<
    (RaceView, Seq<RaceView>),
> {
    let reset = starts_with(part, "init|"@) && st.grid.len() > 0;
    let st1 = if reset {
        RaceView { grid: seq![], pit_stops: st.pit_stops }
    } else {
        st
    };
    let saved = if reset {
        seq![st]
    } else {
        seq![]
    };
    let after = if starts_with(part, "<tbody>"@) {
        apply_rows(st1, split(part, "<tr"@), cfg)
    } else {
        apply_lines(st1, lines(part), cfg)
    };
    match after {
        None => None,
        Some(st2) => Some((st2, saved)),
    }
}

/// Parts applied in order, with the races handed out for saving.
pub open spec fn apply_parts(st: RaceView, parts: Seq<Seq<char>>, cfg: Columns) -> Option<
    (RaceView, Seq<RaceView>),
>
    decreases parts.len(),
{
    if parts.len() == 0 {
        Some((st, seq![]))
    } else {
        match apply_parts(st, parts.drop_last(), cfg) {
            None => None,
            Some((s1, saved1)) => match part_step(s1, parts.last(), cfg) {
                None => None,
                Some((s2, saved2)) => Some((s2, saved1 + saved2)),
            },
        }
    }
}

/// A message of the feed applied to the race: the race after it and the
/// races handed out for saving, in order; `None` for a message that cannot
/// be read (a missing delimiter, or lap statistics that overflow).
pub open spec fn race_update(st: RaceView, data: Seq<char>, cfg: Columns) -> Option<
    (RaceView, Seq<RaceView>),
> {
    apply_parts(st, split(data, "grid||"@), cfg)
}

/// Once a part cannot be read, the whole message cannot.
proof fn lemma_apply_parts_stops(st: RaceView, parts: Seq<Seq<char>>, cfg: Columns, i: int)
    requires
        0 <= i <= parts.len(),
        apply_parts(st, parts.take(i), cfg) is None,
    ensures
        apply_parts(st, parts, cfg) is None,
    decreases parts.len() - i,
{
    if i < parts.len() {
        assert(parts.take(i + 1).drop_last() =~= parts.take(i));
        lemma_apply_parts_stops(st, parts, cfg, i + 1);
    } else {
        assert(parts.take(i) =~= parts);
    }
}

/// Applies a message in place; `None` where `race_update` is `None`, the
/// race then being left in an unspecified state.
fn apply_message(race: &mut RaceData, data: &[char], cols: &ColumnChars) -> (r: Option<
    Vec<RaceData>,
>)
    ensures
        match race_update(old(race)@, data@, cols@) {
            Some((st, saved)) => r matches Some(v) && final(race)@ == st && races_view(v@)
                == saved,
            None => r is None,
        },
{
    let m = Markers::new();
    proof {
        reveal_strlit("grid||");
    }
    let parts = split_chars(data, &m.part);
    let ghost all = split(data@, "grid||"@);
    let ghost start = race@;
    let mut saved: Vec<RaceData> = Vec::new();
    let mut i: usize = 0;
    while i < parts.len()
        invariant
            m.wf(),
            start == old(race)@,
            all == split(data@, "grid||"@),
            i <= parts.len(),
            parts.len() == all.len(),
            forall|k: int| 0 <= k < parts.len() ==> (#[trigger] parts[k])@ == all[k],
            apply_parts(start, all.take(i as int), cols@) == Some((race@, races_view(saved@))),
        decreases parts.len() - i,
    {
        assert(all.take(i + 1).drop_last() =~= all.take(i as int));
        assert(all.take(i + 1).last() == parts[i as int]@);
        let part = &parts[i];
        let ghost pre = race@;
        let ghost saved_before = races_view(saved@);
        if starts_with_chars(part, &m.new_race) && race.grid.len() > 0 {
            let mut old_grid: Vec<(String, GridData)> = Vec::new();
            std::mem::swap(&mut old_grid, &mut race.grid);
            let stints = clone_stints(&race.pit_stops);
            saved.push(RaceData { grid: old_grid, pit_stops: stints });
            assert(grid_view(race.grid@) =~= seq![]);
        }
        assert(races_view(saved@) =~= saved_before + (if starts_with(part@, "init|"@)
            && pre.grid.len() > 0 {
            seq![pre]
        } else {
            seq![]
        }));
        let ok = if starts_with_chars(part, &m.table) {
            apply_table(race, part, cols, &m)
        } else {
            apply_text(race, part, cols, &m)
        };
        if !ok {
            proof {
                assert(part_step(pre, all.take(i + 1).last(), cols@) is None);
                assert(apply_parts(start, all.take(i + 1), cols@) is None);
                lemma_apply_parts_stops(start, all, cols@, i + 1);
            }
            return None;
        }
        i += 1;
    }
    assert(all.take(parts.len() as int) =~= all);
    Some(saved)
}

/// Applies a message of the feed to the race data (see `race_update`) and
/// returns the races that it hands out for saving, in order.
pub fn parse_race_data(data: &str, race_data: &mut RaceData, config: &RaceConfig) -> (saved: Vec<
    RaceData,
>)
    requires
        race_update(old(race_data)@, data@, config@) is Some,
    ensures
        race_update(old(race_data)@, data@, config@) == Some((final(race_data)@, races_view(saved@))),
{
    let d = chars_of(data);
    let cols = column_chars(config);
    match apply_message(race_data, &d, &cols) {
        Some(v) => v,
        None => Vec::new(),
    }
}

/// Applies a message of the feed where it can be read: `Some` of the races
/// handed out for saving, the race data updated as `race_update` says;
/// `None` for a message that cannot be read, the race data unchanged.
pub fn try_parse_race_data(data: &str, race_data: &mut RaceData, config: &RaceConfig) -> (r: Option<
    Vec<RaceData>,
>)
    ensures
        match race_update(old(race_data)@, data@, config@) {
            Some((st, saved)) => r matches Some(v) && final(race_data)@ == st && races_view(v@)
                == saved,
            None => r is None && final(race_data)@ == old(race_data)@,
        },
{
    let d = chars_of(data);
    let cols = column_chars(config);
    let mut work = clone_race(race_data);
    match apply_message(&mut work, &d, &cols) {
        Some(v) => {
            *race_data = work;
            Some(v)
        },
        None => None,
    }
}

/// No two grid entries share a row id.
pub open spec fn keys_distinct(grid: Seq<(Seq<char>, GridView)>) -> bool {
    forall|i: int, j: int| 0 <= i < j < grid.len() ==> #[trigger] grid[i].0 != #[trigger] grid[j].0
}

/// Only the final entry of a lap history may be empty.
pub open spec fn history_ok(h: Seq<Seq<char>>) -> bool {
    forall|i: int| 0 <= i < h.len() - 1 ==> (#[trigger] h[i]).len() > 0
}

/// A race whose grid is a map from row ids to rows, and whose lap histories
/// hold an empty entry at most at their end.
pub open spec fn race_wf(st: RaceView) -> bool {
    &&& keys_distinct(st.grid)
    &&& forall|i: int| 0 <= i < st.grid.len() ==> history_ok((#[trigger] st.grid[i]).1.history)
}

/// What one step keeps: the invariant, and the stints recorded so far.
pub open spec fn step_keeps(st: RaceView, s2: RaceView) -> bool {
    &&& race_wf(s2)
    &&& st.pit_stops.is_prefix_of(s2.pit_stops)
}

proof fn lemma_next_history(h: Seq<Seq<char>>, v: Seq<char>)
    requires
        history_ok(h),
    ensures
        history_ok(next_history(h, v)),
{
    let n = next_history(h, v);
    if h.len() > 0 && h.last().len() != 0 && h.last() != v {
        assert forall|i: int| 0 <= i < n.len() - 1 implies (#[trigger] n[i]).len() > 0 by {
            if i < h.len() - 1 {
                assert(n[i] == h[i]);
            }
        }
    } else if h.len() > 0 && h.last().len() == 0 {
        assert forall|i: int| 0 <= i < n.len() - 1 implies (#[trigger] n[i]).len() > 0 by {
            assert(n[i] == h[i]);
        }
    }
}

proof fn lemma_row_step(st: RaceView, row: Seq<char>, cfg: Columns)
    requires
        race_wf(st),
        row_step(st, row, cfg) is Some,
    ensures
        step_keeps(st, row_step(st, row, cfg).unwrap()),
{
    let s2 = row_step(st, row, cfg).unwrap();
    assert(st.pit_stops.is_prefix_of(s2.pit_stops));
    if let Some(Some((id, g))) = row_entry(row, cfg) {
        if key_index(st.grid, id) is None {
            lemma_key_index_from(st.grid, id, 0);
            assert(s2.grid == st.grid.push((id, g)));
            assert forall|i: int, j: int| 0 <= i < j < s2.grid.len() implies #[trigger] s2.grid[i].0
                != #[trigger] s2.grid[j].0 by {
                if j == st.grid.len() {
                    assert(st.grid[i].0 != id);
                } else {
                    assert(st.grid[i] == s2.grid[i] && st.grid[j] == s2.grid[j]);
                }
            }
            assert forall|i: int| 0 <= i < s2.grid.len() implies history_ok(
                (#[trigger] s2.grid[i]).1.history,
            ) by {
                if i < st.grid.len() {
                    assert(st.grid[i] == s2.grid[i]);
                }
            }
        }
    }
}

proof fn lemma_line_step(st: RaceView, line: Seq<char>, cfg: Columns)
    requires
        race_wf(st),
        line_step(st, line, cfg) is Some,
    ensures
        step_keeps(st, line_step(st, line, cfg).unwrap()),
{
    let s2 = line_step(st, line, cfg).unwrap();
    if let Some(Some((id, f, v))) = line_update(line, cfg) {
        if let Some(k) = key_index(st.grid, id) {
            lemma_key_index_from(st.grid, id, 0);
            let g = st.grid[k].1;
            assert(history_ok(g.history));
            lemma_next_history(g.history, v);
            assert(s2.grid.len() == st.grid.len());
            assert forall|i: int| 0 <= i < s2.grid.len() implies #[trigger] s2.grid[i].0
                == st.grid[i].0 by {
            }
            assert forall|i: int, j: int| 0 <= i < j < s2.grid.len() implies #[trigger] s2.grid[i].0
                != #[trigger] s2.grid[j].0 by {
                assert(st.grid[i].0 != st.grid[j].0);
            }
            assert forall|i: int| 0 <= i < s2.grid.len() implies history_ok(
                (#[trigger] s2.grid[i]).1.history,
            ) by {
                if i != k {
                    assert(st.grid[i] == s2.grid[i]);
                }
            }
            assert(st.pit_stops.is_prefix_of(s2.pit_stops));
        }
    }
}

proof fn lemma_apply_rows(st: RaceView, rows: Seq<Seq<char>>, cfg: Columns)
    requires
        race_wf(st),
        apply_rows(st, rows, cfg) is Some,
    ensures
        step_keeps(st, apply_rows(st, rows, cfg).unwrap()),
    decreases rows.len(),
{
    if rows.len() > 0 {
        lemma_apply_rows(st, rows.drop_last(), cfg);
        let s1 = apply_rows(st, rows.drop_last(), cfg).unwrap();
        lemma_row_step(s1, rows.last(), cfg);
    }
}

proof fn lemma_apply_lines(st: RaceView, lines: Seq<Seq<char>>, cfg: Columns)
    requires
        race_wf(st),
        apply_lines(st, lines, cfg) is Some,
    ensures
        step_keeps(st, apply_lines(st, lines, cfg).unwrap()),
    decreases lines.len(),
{
    if lines.len() > 0 {
        lemma_apply_lines(st, lines.drop_last(), cfg);
        let s1 = apply_lines(st, lines.drop_last(), cfg).unwrap();
        lemma_line_step(s1, lines.last(), cfg);
    }
}

/// Every race handed out for saving is a well-formed race with a non-empty grid.
pub open spec fn saved_ok(saved: Seq<RaceView>) -> bool {
    forall|i: int| 0 <= i < saved.len() ==> race_wf(#[trigger] saved[i]) && saved[i].grid.len() > 0
}

proof fn lemma_apply_parts(st: RaceView, parts: Seq<Seq<char>>, cfg: Columns)
    requires
        race_wf(st),
        apply_parts(st, parts, cfg) is Some,
    ensures
        step_keeps(st, apply_parts(st, parts, cfg).unwrap().0),
        saved_ok(apply_parts(st, parts, cfg).unwrap().1),
    decreases parts.len(),
{
    if parts.len() > 0 {
        lemma_apply_parts(st, parts.drop_last(), cfg);
        let (s1, saved1) = apply_parts(st, parts.drop_last(), cfg).unwrap();
        let part = parts.last();
        let reset = starts_with(part, "init|"@) && s1.grid.len() > 0;
        let st1 = if reset {
            RaceView { grid: seq![], pit_stops: s1.pit_stops }
        } else {
            s1
        };
        assert(race_wf(st1));
        if starts_with(part, "<tbody>"@) {
            lemma_apply_rows(st1, split(part, "<tr"@), cfg);
        } else {
            lemma_apply_lines(st1, lines(part), cfg);
        }
        let (s2, saved2) = part_step(s1, part, cfg).unwrap();
        assert(st.pit_stops.is_prefix_of(s2.pit_stops));
        let all = saved1 + saved2;
        assert forall|i: int| 0 <= i < all.len() implies race_wf(#[trigger] all[i])
            && all[i].grid.len() > 0 by {
            if i < saved1.len() {
                assert(all[i] == saved1[i]);
            } else {
                assert(all[i] == s1);
            }
        }
    }
}

/// A message keeps a race well formed: row ids stay unique in the grid and
/// only the final entry of a lap history may be empty. The stints recorded
/// before the message stay as they were, at the front of the list, and each
/// race handed out for saving is well formed and has a non-empty grid.
pub proof fn lemma_race_update_keeps(st: RaceView, data: Seq<char>, cfg: Columns)
    requires
        race_wf(st),
        race_update(st, data, cfg) is Some,
    ensures
        race_wf(race_update(st, data, cfg).unwrap().0),
        st.pit_stops.is_prefix_of(race_update(st, data, cfg).unwrap().0.pit_stops),
        saved_ok(race_update(st, data, cfg).unwrap().1),
{
    lemma_apply_parts(st, split(data, "grid||"@), cfg);
}

/// A new last lap `v` of a kart in the grid: the kart's last lap becomes
/// `v` and its lap history ends with `v`, unless the history already ended
/// with `v`, in which case it stays as it was. An empty history becomes
/// exactly `[v]`; every entry but the final one is kept, and the history
/// grows by at most one entry. The statistics are those of the new history,
/// the other rows and the stints stay as they were.
pub proof fn lemma_last_lap_update(st: RaceView, id: Seq<char>, v: Seq<char>, k: int)
    requires
        0 <= k < st.grid.len(),
        st.grid[k].0 == id,
        forall|j: int| 0 <= j < k ==> (#[trigger] st.grid[j]).0 != id,
        apply_update(st, id, Field::Last, v) is Some,
    ensures
        ({
            let s2 = apply_update(st, id, Field::Last, v).unwrap();
            let h = st.grid[k].1.history;
            let n = s2.grid[k].1.history;
            &&& s2.grid.len() == st.grid.len()
            &&& s2.grid[k].0 == id
            &&& s2.grid[k].1.last == v
            &&& n.len() >= 1
            &&& n.len() <= h.len() + 1
            &&& (h.len() == 0 ==> n == seq![v])
            &&& (h.len() > 0 && h.last() == v ==> n == h)
            &&& (h.len() > 0 && h.last() != v ==> n.last() == v && n.len() >= h.len())
            &&& (h.len() > 0 ==> n.subrange(0, h.len() - 1) == h.subrange(0, h.len() - 1))
            &&& (s2.grid[k].1.median, s2.grid[k].1.average, s2.grid[k].1.recent)
                == lap_statistics(n)
            &&& forall|j: int| 0 <= j < st.grid.len() && j != k ==> s2.grid[j] == st.grid[j]
            &&& s2.pit_stops == st.pit_stops
        }),
{
    lemma_key_index_from(st.grid, id, 0);
    let h = st.grid[k].1.history;
    let n = next_history(h, v);
    if h.len() > 0 {
        assert(n.subrange(0, h.len() - 1) =~= h.subrange(0, h.len() - 1));
    }
}

/// The cell that a column names: in a row `a + c + b + ">" + t + "</" + d`
/// where the column name `c` first occurs right after `a`, and neither `c`
/// nor `b` holds a `'>'`, the cell text is exactly `t`, whatever its length,
/// provided `t` holds no `"</"`. A row in which `c` occurs nowhere has an
/// empty cell.
pub proof fn lemma_cell_text_shape(
    a: Seq<char>,
    c: Seq<char>,
    b: Seq<char>,
    t: Seq<char>,
    d: Seq<char>,
)
    requires
        forall|k: int| 0 <= k < a.len() ==> !#[trigger] matches_at(a + c, c, k),
        forall|k: int| 0 <= k < c.len() ==> c[k] != '>',
        forall|k: int| 0 <= k < b.len() ==> b[k] != '>',
        forall|k: int| 0 <= k && k + 1 < t.len() ==> !(#[trigger] t[k] == '<' && t[k + 1] == '/'),
    ensures
        cell_text(a + c + b + seq!['>'] + t + seq!['<', '/'] + d, c) == Some(t),
{
    let row = a + c + b + seq!['>'] + t + seq!['<', '/'] + d;
    let at = a.len() as int;
    let gt = (a.len() + c.len() + b.len()) as int;
    let end = gt + 1 + t.len();
    assert(row.subrange(at, at + c.len()) =~= c);
    assert forall|k: int| 0 <= k < at implies !#[trigger] matches_at(row, c, k) by {
        assert(!matches_at(a + c, c, k));
        assert(row.subrange(k, k + c.len()) =~= (a + c).subrange(k, k + c.len()));
    }
    crate::text::lemma_find_first(row, c, 0, at);
    assert(row.subrange(gt, gt + 1) =~= seq!['>']);
    assert forall|k: int| at <= k < gt implies !#[trigger] matches_at(row, seq!['>'], k) by {
        assert(row.subrange(k, k + 1)[0] == row[k]);
        if k < at + c.len() {
            assert(row[k] == c[k - at]);
        } else {
            assert(row[k] == b[k - at - c.len()]);
        }
    }
    crate::text::lemma_find_first(row, seq!['>'], at, gt);
    reveal_strlit("</");
    assert("</"@ =~= seq!['<', '/']);
    assert(row.subrange(end, end + 2) =~= "</"@);
    assert forall|k: int| gt + 1 <= k < end implies !#[trigger] matches_at(row, "</"@, k) by {
        assert(row.subrange(k, k + 2)[0] == row[k]);
        assert(row.subrange(k, k + 2)[1] == row[k + 1]);
        assert(row[k] == t[k - gt - 1]);
        if k + 1 < end {
            assert(row[k + 1] == t[k - gt]);
        } else {
            assert(row[k + 1] == '<');
        }
    }
    crate::text::lemma_find_first(row, "</"@, gt + 1, end);
    assert(row.subrange(gt + 1, end) =~= t);
}

/// A row in which the column name occurs nowhere has an empty cell.
pub proof fn lemma_cell_text_absent(row: Seq<char>, c: Seq<char>)
    requires
        forall|k: int| 0 <= k ==> !#[trigger] matches_at(row, c, k),
    ensures
        cell_text(row, c) == Some(Seq::<char>::empty()),
{
    crate::text::lemma_find_nowhere(row, c, 0);
}

/// A pit entry of a kart in the grid: its pit lap becomes its current lap,
/// its lap history empties, and one stint is added at the end of the stint
/// list, holding the kart, the driver, the current lap, the history before
/// the entry and the statistics before it (empty text where absent). Nothing
/// else changes.
pub proof fn lemma_pit_entry(st: RaceView, id: Seq<char>, v: Seq<char>, k: int)
    requires
        0 <= k < st.grid.len(),
        st.grid[k].0 == id,
        forall|j: int| 0 <= j < k ==> (#[trigger] st.grid[j]).0 != id,
    ensures
        ({
            let s2 = apply_update(st, id, Field::Pit, v).unwrap();
            let g = st.grid[k].1;
            let g2 = s2.grid[k].1;
            let stint = s2.pit_stops.last();
            &&& apply_update(st, id, Field::Pit, v) is Some
            &&& s2.grid.len() == st.grid.len()
            &&& s2.grid[k].0 == id
            &&& g2.pit == g.lap
            &&& g2.history.len() == 0
            &&& g2.kart == g.kart && g2.driver == g.driver && g2.lap == g.lap && g2.last == g.last
            &&& g2.position == g.position && g2.best == g.best && g2.gap == g.gap
            &&& g2.ontrack == g.ontrack
            &&& g2.median == g.median && g2.average == g.average && g2.recent == g.recent
            &&& s2.pit_stops.len() == st.pit_stops.len() + 1
            &&& s2.pit_stops.drop_last() == st.pit_stops
            &&& stint.kart == g.kart && stint.driver == g.driver && stint.lap == g.lap
            &&& stint.history == g.history
            &&& stint.median == Some(if g.median is Some { g.median.unwrap() } else { seq![] })
            &&& stint.average == Some(if g.average is Some { g.average.unwrap() } else { seq![] })
            &&& stint.recent == Some(if g.recent is Some { g.recent.unwrap() } else { seq![] })
            &&& forall|j: int| 0 <= j < st.grid.len() && j != k ==> s2.grid[j] == st.grid[j]
        }),
{
    lemma_key_index_from(st.grid, id, 0);
    let s2 = apply_update(st, id, Field::Pit, v).unwrap();
    assert(s2.pit_stops.drop_last() =~= st.pit_stops);
}

/// A driver, position, gap, best lap, lap count or time on track update of a
/// kart in the grid sets that datum to `v` and changes nothing else; an
/// update of a row id that is not in the grid changes nothing.
pub proof fn lemma_plain_update(st: RaceView, id: Seq<char>, f: Field, v: Seq<char>)
    requires
        !(f is Last) && !(f is Pit),
    ensures
        apply_update(st, id, f, v) is Some,
        (forall|j: int| 0 <= j < st.grid.len() ==> (#[trigger] st.grid[j]).0 != id)
            ==> apply_update(st, id, f, v) == Some(st),
        forall|k: int|
            0 <= k < st.grid.len() && #[trigger] st.grid[k].0 == id && (forall|j: int|
                0 <= j < k ==> (#[trigger] st.grid[j]).0 != id) ==> ({
                let s2 = apply_update(st, id, f, v).unwrap();
                let g = st.grid[k].1;
                let g2 = s2.grid[k].1;
                &&& s2.grid.len() == st.grid.len()
                &&& s2.grid[k].0 == id
                &&& s2.pit_stops == st.pit_stops
                &&& forall|j: int| 0 <= j < st.grid.len() && j != k ==> s2.grid[j] == st.grid[j]
                &&& g2.driver == (if f is Driver { v } else { g.driver })
                &&& g2.position == (if f is Position { v } else { g.position })
                &&& g2.gap == (if f is Gap { v } else { g.gap })
                &&& g2.best == (if f is Best { v } else { g.best })
                &&& g2.lap == (if f is Lap { v } else { g.lap })
                &&& g2.ontrack == (if f is Ontrack { v } else { g.ontrack })
                &&& g2.kart == g.kart && g2.last == g.last && g2.pit == g.pit
                &&& g2.history == g.history
                &&& g2.median == g.median && g2.average == g.average && g2.recent == g.recent
            }),
{
    lemma_key_index_from(st.grid, id, 0);
    assert forall|k: int|
        0 <= k < st.grid.len() && #[trigger] st.grid[k].0 == id && (forall|j: int|
            0 <= j < k ==> (#[trigger] st.grid[j]).0 != id) implies key_index(st.grid, id) == Some(
        k,
    ) by {
        lemma_key_index_from(st.grid, id, 0);
        if key_index(st.grid, id) != Some(k) {
            let k2 = key_index(st.grid, id).unwrap();
            assert(k2 < k || k2 > k);
        }
    }
}

/// The column of a line names the datum it sets: a column equal to the
/// driver column sets the driver, and so on; a column that names a datum
/// equals that datum's column, and a column equal to none of them sets
/// nothing.
pub proof fn lemma_field_of_column(c: Seq<char>, cfg: Columns)
    ensures
        field_of(c, cfg) == Some(Field::Driver) ==> c == cfg.driver,
        field_of(c, cfg) == Some(Field::Position) ==> c == cfg.position,
        field_of(c, cfg) == Some(Field::Gap) ==> c == cfg.gap,
        field_of(c, cfg) == Some(Field::Best) ==> c == cfg.best,
        field_of(c, cfg) == Some(Field::Last) ==> c == cfg.last,
        field_of(c, cfg) == Some(Field::Lap) ==> c == cfg.lap,
        field_of(c, cfg) == Some(Field::Ontrack) ==> c == cfg.ontrack,
        field_of(c, cfg) == Some(Field::Pit) ==> c == cfg.pit,
        c == cfg.driver ==> field_of(c, cfg) == Some(Field::Driver),
        c == cfg.last && c != cfg.driver && c != cfg.position && c != cfg.gap && c != cfg.best
            ==> field_of(c, cfg) == Some(Field::Last),
        c == cfg.pit && c != cfg.driver && c != cfg.position && c != cfg.gap && c != cfg.best
            && c != cfg.last && c != cfg.lap && c != cfg.ontrack ==> field_of(c, cfg) == Some(
            Field::Pit,
        ),
        (c != cfg.driver && c != cfg.position && c != cfg.gap && c != cfg.best && c != cfg.last
            && c != cfg.lap && c != cfg.ontrack && c != cfg.pit) <==> field_of(c, cfg) is None,
{
}

/// The parts of a timing line: in `"r" + id + "c" + col + "|" + f1 + "|" +
/// value + tail`, where the row id holds no `'c'` and no `'|'`, the column
/// rest, `f1` and the value hold no `'|'`, and the tail is empty or starts
/// with `'|'`, the line sets the datum that column `"c" + col` names, of
/// row `id`, to `value`; it sets nothing when the column names no datum.
pub proof fn lemma_line_parts(
    id: Seq<char>,
    col: Seq<char>,
    f1: Seq<char>,
    value: Seq<char>,
    tail: Seq<char>,
    cfg: Columns,
)
    requires
        forall|k: int| 0 <= k < id.len() ==> id[k] != 'c' && id[k] != '|',
        forall|k: int| 0 <= k < col.len() ==> col[k] != '|',
        forall|k: int| 0 <= k < f1.len() ==> f1[k] != '|',
        forall|k: int| 0 <= k < value.len() ==> value[k] != '|',
        tail.len() == 0 || tail[0] == '|',
    ensures
        line_update(
            seq!['r'] + id + seq!['c'] + col + seq!['|'] + f1 + seq!['|'] + value + tail,
            cfg,
        ) == match field_of(seq!['c'] + col, cfg) {
            None => Some(None),
            Some(f) => Some(Some((id, f, value))),
        },
{
    let l = seq!['r'] + id + seq!['c'] + col + seq!['|'] + f1 + seq!['|'] + value + tail;
    let cm: int = id.len() as int + 1;
    let q1: int = cm + 1 + col.len();
    let q2: int = q1 + 1 + f1.len();
    let q3: int = q2 + 1 + value.len();
    assert(l.subrange(0, 1) =~= seq!['r']);
    assert forall|k: int| 0 <= k < cm implies l[k] != 'c' && l[k] != '|' by {
        if k > 0 {
            assert(l[k] == id[k - 1]);
        }
    }
    assert(l[cm] == 'c');
    assert forall|k: int| 0 <= k < cm implies !#[trigger] matches_at(l, seq!['c'], k) by {
        crate::text::lemma_matches_char(l, 'c', k);
    }
    crate::text::lemma_matches_char(l, 'c', cm);
    crate::text::lemma_find_first(l, seq!['c'], 0, cm);
    assert forall|k: int| cm <= k < q1 implies l[k] != '|' by {
        if k > cm {
            assert(l[k] == col[k - cm - 1]);
        }
    }
    assert(l[q1] == '|');
    assert forall|k: int| cm <= k < q1 implies !#[trigger] matches_at(l, seq!['|'], k) by {
        crate::text::lemma_matches_char(l, '|', k);
    }
    crate::text::lemma_matches_char(l, '|', q1);
    crate::text::lemma_find_first(l, seq!['|'], cm, q1);
    assert(l.subrange(cm, q1) =~= seq!['c'] + col);
    assert(l.subrange(1, cm) =~= id);
    assert forall|k: int| 0 <= k < q1 implies l[k] != '|' by {
        if k >= cm {
        }
    }
    crate::text::lemma_split_char_at(l, '|', 0, q1);
    assert forall|k: int| q1 + 1 <= k < q2 implies l[k] != '|' by {
        assert(l[k] == f1[k - q1 - 1]);
    }
    assert(l[q2] == '|');
    crate::text::lemma_split_char_at(l, '|', q1 + 1, q2);
    assert forall|k: int| q2 + 1 <= k < q3 implies l[k] != '|' by {
        assert(l[k] == value[k - q2 - 1]);
    }
    if tail.len() == 0 {
        assert(q3 == l.len());
        crate::text::lemma_split_char_end(l, '|', q2 + 1);
    } else {
        assert(l[q3] == '|');
        crate::text::lemma_split_char_at(l, '|', q2 + 1, q3);
    }
    assert(l.subrange(q2 + 1, q3) =~= value);
    let fields = split(l, seq!['|']);
    assert(fields[2] == value);
}

proof fn lemma_id_markers()
    ensures
        "data-id=\"r"@ == "data-id=\""@.push('r'),
        forall|k: int| 0 <= k < "data-id=\""@.len() ==> "data-id=\""@[k] != 'r',
{
    reveal_strlit("data-id=\"");
    reveal_strlit("data-id=\"r");
    assert("data-id=\"r"@ =~= "data-id=\""@.push('r'));
}

proof fn lemma_first_marker(a: Seq<char>, m: Seq<char>, rest: Seq<char>)
    requires
        forall|k: int| 0 <= k < a.len() ==> !#[trigger] matches_at(a + m, m, k),
    ensures
        find(a + m + rest, m) == Some(a.len() as int),
{
    let row = a + m + rest;
    let at = a.len() as int;
    assert(row.subrange(at, at + m.len()) =~= m);
    assert forall|k: int| 0 <= k < at implies !#[trigger] matches_at(row, m, k) by {
        assert(!matches_at(a + m, m, k));
        assert(row.subrange(k, k + m.len()) =~= (a + m).subrange(k, k + m.len()));
    }
    crate::text::lemma_find_first(row, m, 0, at);
}

proof fn lemma_row_id_at(a: Seq<char>, id: Seq<char>, rest: Seq<char>)
    requires
        forall|k: int| 0 <= k < a.len() ==> !#[trigger] matches_at(a + "data-id=\""@, "data-id=\""@, k),
        forall|k: int| 0 <= k < id.len() ==> id[k] != '"',
    ensures
        ({
            let m = "data-id=\""@;
            let row = a + m + seq!['r'] + id + seq!['"'] + rest;
            let at = a.len() as int;
            let rp = at + m.len();
            let qt = rp + 1 + id.len();
            &&& contains(row, "data-id=\"r"@)
            &&& find(row, m) == Some(at)
            &&& find_from(row, seq!['r'], at) == Some(rp)
            &&& find_from(row, seq!['"'], rp + 1) == Some(qt)
            &&& row.subrange(rp + 1, qt) == id
        }),
{
    let m = "data-id=\""@;
    let row = a + m + seq!['r'] + id + seq!['"'] + rest;
    let at = a.len() as int;
    let rp = at + m.len();
    let qt = rp + 1 + id.len();
    lemma_id_markers();
    assert(row =~= a + m + (seq!['r'] + id + seq!['"'] + rest));
    lemma_first_marker(a, m, seq!['r'] + id + seq!['"'] + rest);
    assert(row.subrange(at, at + m.len() + 1) =~= m.push('r'));
    assert(matches_at(row, "data-id=\"r"@, at));
    crate::text::lemma_find_from(row, "data-id=\"r"@, 0);
    assert forall|k: int| at <= k < rp implies !#[trigger] matches_at(row, seq!['r'], k) by {
        crate::text::lemma_matches_char(row, 'r', k);
        assert(row[k] == m[k - at]);
    }
    assert(row[rp] == 'r');
    crate::text::lemma_matches_char(row, 'r', rp);
    crate::text::lemma_find_first(row, seq!['r'], at, rp);
    assert forall|k: int| rp + 1 <= k < qt implies !#[trigger] matches_at(row, seq!['"'], k) by {
        crate::text::lemma_matches_char(row, '"', k);
        assert(row[k] == id[k - rp - 1]);
    }
    assert(row[qt] == '"');
    crate::text::lemma_matches_char(row, '"', qt);
    crate::text::lemma_find_first(row, seq!['"'], rp + 1, qt);
    assert(row.subrange(rp + 1, qt) =~= id);
}

/// The kart rows of a grid table: a row `a + "data-id=\"r" + id + "\"" +
/// rest`, where `data-id="` first occurs right after `a`, the row id holds
/// no `'"'`, the row holds no `r0` and each configured cell can be read,
/// brings the row id `id` with the cells of the row: pit lap empty, lap
/// history `[last lap]`, statistics empty. A piece that holds `r0`, or no
/// `data-id="r`, brings nothing.
pub proof fn lemma_row_parts(a: Seq<char>, id: Seq<char>, rest: Seq<char>, cfg: Columns)
    requires
        forall|k: int| 0 <= k < a.len() ==> !#[trigger] matches_at(a + "data-id=\""@, "data-id=\""@, k),
        forall|k: int| 0 <= k < id.len() ==> id[k] != '"',
        forall|k: int|
            0 <= k ==> !#[trigger] matches_at(
                a + "data-id=\""@ + seq!['r'] + id + seq!['"'] + rest,
                "r0"@,
                k,
            ),
    ensures
        ({
            let row = a + "data-id=\""@ + seq!['r'] + id + seq!['"'] + rest;
            let cells = seq![
                cell_text(row, cfg.position),
                cell_text(row, cfg.kart),
                cell_text(row, cfg.driver),
                cell_text(row, cfg.best),
                cell_text(row, cfg.last),
                cell_text(row, cfg.lap),
                cell_text(row, cfg.gap),
                cell_text(row, cfg.ontrack),
            ];
            (forall|i: int| 0 <= i < 8 ==> #[trigger] cells[i] is Some) ==> ({
                let e = row_entry(row, cfg);
                let g = e.unwrap().unwrap().1;
                &&& e matches Some(Some(_))
                &&& e.unwrap().unwrap().0 == id
                &&& Some(g.position) == cells[0]
                &&& Some(g.kart) == cells[1]
                &&& Some(g.driver) == cells[2]
                &&& Some(g.best) == cells[3]
                &&& Some(g.last) == cells[4]
                &&& Some(g.lap) == cells[5]
                &&& Some(g.gap) == cells[6]
                &&& Some(g.ontrack) == cells[7]
                &&& g.pit.len() == 0
                &&& g.history == seq![g.last]
                &&& g.median == Some(Seq::<char>::empty())
                &&& g.average == Some(Seq::<char>::empty())
                &&& g.recent == Some(Seq::<char>::empty())
            })
        }),
{
    let row = a + "data-id=\""@ + seq!['r'] + id + seq!['"'] + rest;
    lemma_row_id_at(a, id, rest);
    crate::text::lemma_find_from(row, "r0"@, 0);
    assert(!contains(row, "r0"@));
    let cells = seq![
        cell_text(row, cfg.position),
        cell_text(row, cfg.kart),
        cell_text(row, cfg.driver),
        cell_text(row, cfg.best),
        cell_text(row, cfg.last),
        cell_text(row, cfg.lap),
        cell_text(row, cfg.gap),
        cell_text(row, cfg.ontrack),
    ];
    if forall|i: int| 0 <= i < 8 ==> #[trigger] cells[i] is Some {
        assert(cells[0] is Some && cells[1] is Some && cells[2] is Some && cells[3] is Some);
        assert(cells[4] is Some && cells[5] is Some && cells[6] is Some && cells[7] is Some);
    }
}

/// A table piece that holds `r0`, or no `data-id="r`, brings nothing.
pub proof fn lemma_row_skipped(row: Seq<char>, cfg: Columns)
    requires
        (exists|k: int| #[trigger] matches_at(row, "r0"@, k)) || (forall|k: int|
            !#[trigger] matches_at(row, "data-id=\"r"@, k)),
    ensures
        row_entry(row, cfg) == Some(None::<(Seq<char>, GridView)>),
{
    crate::text::lemma_find_from(row, "r0"@, 0);
    crate::text::lemma_find_from(row, "data-id=\"r"@, 0);
    if exists|k: int| #[trigger] matches_at(row, "r0"@, k) {
        let k = choose|k: int| #[trigger] matches_at(row, "r0"@, k);
        assert(0 <= k);
    }
}

proof fn lemma_part_markers()
    ensures
        "grid||"@.len() == 6,
        "init|"@ == seq!['i', 'n', 'i', 't', '|'],
        "<tbody>"@.len() == 7,
        "<tbody>"@[0] == '<',
{
    reveal_strlit("grid||");
    reveal_strlit("init|");
    reveal_strlit("<tbody>");
    assert("init|"@ =~= seq!['i', 'n', 'i', 't', '|']);
}

/// A message that is one part (no `grid||`) and one line (non-empty, no
/// line break) is that part applied.
proof fn lemma_one_part_one_line(st: RaceView, data: Seq<char>, cfg: Columns)
    requires
        data.len() > 0,
        forall|k: int| 0 <= k < data.len() ==> data[k] != '\n',
        forall|k: int| 0 <= k ==> !#[trigger] matches_at(data, "grid||"@, k),
    ensures
        race_update(st, data, cfg) == part_step(st, data, cfg),
        lines(data) == seq![data],
{
    lemma_part_markers();
    crate::text::lemma_split_whole(data, "grid||"@);
    crate::text::lemma_lines_whole(data);
    let parts = seq![data];
    assert(parts.drop_last() =~= seq![]);
    assert(apply_parts(st, parts.drop_last(), cfg) == Some((st, Seq::<RaceView>::empty())));
    match part_step(st, data, cfg) {
        Some((s2, saved)) => {
            assert(Seq::<RaceView>::empty() + saved =~= saved);
        },
        None => {},
    }
}

proof fn lemma_one_line(st: RaceView, line: Seq<char>, cfg: Columns)
    ensures
        apply_lines(st, seq![line], cfg) == line_step(st, line, cfg),
{
    let ls = seq![line];
    assert(ls.drop_last() =~= Seq::<Seq<char>>::empty());
    assert(apply_lines(st, ls.drop_last(), cfg) == Some(st));
    assert(ls.last() == line);
}

/// A message that is one timing line (it starts with `r`, holds no line
/// break and no `grid||`) changes the race as that line does, and hands out
/// no race for saving.
pub proof fn lemma_single_line_message(st: RaceView, data: Seq<char>, cfg: Columns)
    requires
        data.len() > 0,
        data[0] == 'r',
        forall|k: int| 0 <= k < data.len() ==> data[k] != '\n',
        forall|k: int| 0 <= k ==> !#[trigger] matches_at(data, "grid||"@, k),
    ensures
        race_update(st, data, cfg) == match line_step(st, data, cfg) {
            Some(s2) => Some((s2, Seq::<RaceView>::empty())),
            None => None,
        },
{
    lemma_part_markers();
    lemma_one_part_one_line(st, data, cfg);
    lemma_one_line(st, data, cfg);
    assert(!starts_with(data, "init|"@)) by {
        if starts_with(data, "init|"@) {
            assert(data.subrange(0, 5)[0] == data[0]);
        }
    }
    assert(!starts_with(data, "<tbody>"@)) by {
        if starts_with(data, "<tbody>"@) {
            assert(data.subrange(0, 7)[0] == data[0]);
        }
    }
}

/// A message `"init|" + rest` (no line break, no `grid||`) starts a new
/// race: the grid empties, the stints stay, and the race before it is handed
/// out for saving when its grid held rows.
pub proof fn lemma_new_race_message(st: RaceView, rest: Seq<char>, cfg: Columns)
    requires
        forall|k: int| 0 <= k < rest.len() ==> rest[k] != '\n',
        forall|k: int| 0 <= k ==> !#[trigger] matches_at("init|"@ + rest, "grid||"@, k),
    ensures
        race_update(st, "init|"@ + rest, cfg) == Some(
            (
                RaceView { grid: Seq::empty(), pit_stops: st.pit_stops },
                if st.grid.len() > 0 {
                    seq![st]
                } else {
                    Seq::<RaceView>::empty()
                },
            ),
        ),
{
    let data = "init|"@ + rest;
    lemma_part_markers();
    assert forall|k: int| 0 <= k < data.len() implies data[k] != '\n' by {
        if k >= 5 {
            assert(data[k] == rest[k - 5]);
        }
    }
    lemma_one_part_one_line(st, data, cfg);
    assert(data.subrange(0, 5) =~= "init|"@);
    assert(starts_with(data, "init|"@));
    assert(!starts_with(data, "<tbody>"@)) by {
        if starts_with(data, "<tbody>"@) {
            assert(data.subrange(0, 7)[0] == data[0]);
        }
    }
    assert(!starts_with(data, seq!['r'])) by {
        crate::text::lemma_matches_char(data, 'r', 0);
    }
    let st1 = if st.grid.len() > 0 {
        RaceView { grid: seq![], pit_stops: st.pit_stops }
    } else {
        st
    };
    lemma_one_line(st1, data, cfg);
    assert(line_update(data, cfg) == Some(None::<(Seq<char>, Field, Seq<char>)>));
    assert(apply_lines(st1, lines(data), cfg) == Some(st1));
    if st.grid.len() == 0 {
        assert(st.grid =~= Seq::empty());
    }
}

/// A kart row of a table joins the end of the grid when its row id is new;
/// a row id already in the grid keeps its row as it was. The stints stay.
pub proof fn lemma_row_joins_grid(st: RaceView, row: Seq<char>, cfg: Columns)
    requires
        row_entry(row, cfg) matches Some(Some(_)),
    ensures
        ({
            let (id, g) = row_entry(row, cfg).unwrap().unwrap();
            let s2 = row_step(st, row, cfg).unwrap();
            &&& row_step(st, row, cfg) is Some
            &&& s2.pit_stops == st.pit_stops
            &&& (exists|j: int| 0 <= j < st.grid.len() && #[trigger] st.grid[j].0 == id) ==> s2
                == st
            &&& (forall|j: int| 0 <= j < st.grid.len() ==> #[trigger] st.grid[j].0 != id) ==> s2.grid
                == st.grid.push((id, g))
        }),
{
    let (id, g) = row_entry(row, cfg).unwrap().unwrap();
    lemma_key_index_from(st.grid, id, 0);
}

} // verus!
