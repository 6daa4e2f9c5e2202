use vstd::prelude::*;

verus! {

/// The report tabs, in cycling and rendering order.
#[derive(Clone, Copy, PartialEq, Eq, Structural)]
pub enum SelectedTab {
    Due,
    Active,
    Inbox,
}

pub const TAB_COUNT: usize = 3;

pub open spec fn tab_index(t: SelectedTab) -> nat {
    match t {
        SelectedTab::Due => 0,
        SelectedTab::Active => 1,
        SelectedTab::Inbox => 2,
    }
}

impl SelectedTab {
    pub open spec fn next_spec(self) -> SelectedTab {
        match self {
            SelectedTab::Due => SelectedTab::Active,
            _ => SelectedTab::Inbox,
        }
    }

    pub open spec fn previous_spec(self) -> SelectedTab {
        match self {
            SelectedTab::Inbox => SelectedTab::Active,
            _ => SelectedTab::Due,
        }
    }

    pub fn index(self) -> (r: usize)
        ensures
            r as nat == tab_index(self),
            r < TAB_COUNT,
    {
        match self {
            SelectedTab::Due => 0,
            SelectedTab::Active => 1,
            SelectedTab::Inbox => 2,
        }
    }

    pub fn from_index(i: usize) -> (r: Option<SelectedTab>)
        ensures
            i < TAB_COUNT <==> r.is_some(),
            r.is_some() ==> tab_index(r.unwrap()) == i as nat,
    {
        if i == 0 {
            Some(SelectedTab::Due)
        } else if i == 1 {
            Some(SelectedTab::Active)
        } else if i == 2 {
            Some(SelectedTab::Inbox)
        } else {
            None
        }
    }

    /// The tab before this one; the first tab stays where it is.
    pub fn previous(self) -> (r: SelectedTab)
        ensures
            tab_index(self) == 0 ==> r == self,
            tab_index(self) > 0 ==> tab_index(r) + 1 == tab_index(self),
            r == self.previous_spec(),
    {
        let i = self.index();
        let p = i.saturating_sub(1);
        match SelectedTab::from_index(p) {
            Some(t) => t,
            None => self,
        }
    }

    /// The tab after this one; the last tab stays where it is.
    pub fn next(self) -> (r: SelectedTab)
        ensures
            tab_index(self) + 1 == TAB_COUNT ==> r == self,
            tab_index(self) + 1 < TAB_COUNT ==> tab_index(r) == tab_index(self) + 1,
            r == self.next_spec(),
    {
        let i = self.index();
        let n = i.saturating_add(1);
        match SelectedTab::from_index(n) {
            Some(t) => t,
            None => self,
        }
    }
}

/// Number of newline characters in `s`.
pub open spec fn newline_count(s: Seq<char>) -> nat
    decreases s.len(),
{
    if s.len() == 0 {
        0
    } else {
        newline_count(s.drop_last()) + if s.last() == '\n' { 1nat } else { 0nat }
    }
}

/// Number of lines in `s`: none in empty text, and a final newline ends the
/// last line without opening another.
pub open spec fn line_count(s: Seq<char>) -> nat {
    if s.len() == 0 {
        0
    } else {
        newline_count(s.drop_last()) + 1
    }
}

/// Data rows of a report: its lines less the header line, never below zero.
pub open spec fn row_count(s: Seq<char>) -> nat {
    if line_count(s) == 0 {
        0
    } else {
        (line_count(s) - 1) as nat
    }
}

pub fn task_count(report: &str) -> (r: usize)
    ensures
        r as nat == row_count(report@),
{
    let len = report.unicode_len();
    if len == 0 {
        return 0;
    }
    let mut n: usize = 0;
    let mut i: usize = 0;
    while i + 1 < len
        invariant
            len == report@.len(),
            len > 0,
            i + 1 <= len,
            n <= i,
            n as nat == newline_count(report@.subrange(0, i as int)),
        decreases len - i,
    {
        let c = report.get_char(i);
        proof {
            let s = report@.subrange(0, i as int + 1);
            assert(s.drop_last() =~= report@.subrange(0, i as int));
        }
        if c == '\n' {
            n = n + 1;
        }
        i = i + 1;
    }
    assert(report@.drop_last() =~= report@.subrange(0, i as int));
    n
}


/// Sum of the first `k` label widths: where label `k` starts.
pub open spec fn offset_of(widths: Seq<u64>, k: int) -> int
    decreases k,
{
    if k <= 0 {
        0
    } else {
        offset_of(widths, k - 1) + widths[k - 1] as int
    }
}

/// Maps a column in the tab strip to the label that covers it, walking the
/// labels left to right; `None` past the last label.
pub fn locate(x: u64, widths: &Vec<u64>) -> (r: Option<usize>)
    requires
        offset_of(widths@, widths@.len() as int) <= u64::MAX,
    ensures
        match r {
            Some(i) => i < widths@.len() && offset_of(widths@, i as int) <= x
                < offset_of(widths@, i as int + 1),
            None => x >= offset_of(widths@, widths@.len() as int),
        },
{
    let mut offset: u64 = 0;
    let mut i: usize = 0;
    while i < widths.len()
        invariant
            i <= widths@.len(),
            offset as int == offset_of(widths@, i as int),
            x >= offset,
            offset_of(widths@, widths@.len() as int) <= u64::MAX,
        decreases widths@.len() - i,
    {
        proof { lemma_offset_mono(widths@, i as int + 1, widths@.len() as int); }
        let w = widths[i];
        if x < offset + w {
            return Some(i);
        }
        offset = offset + w;
        i = i + 1;
    }
    None
}

/// Label offsets never decrease along the strip.
pub proof fn lemma_offset_mono(widths: Seq<u64>, j: int, k: int)
    requires
        0 <= j <= k <= widths.len(),
    ensures
        offset_of(widths, j) <= offset_of(widths, k),
    decreases k - j,
{
    if j < k {
        lemma_offset_mono(widths, j, k - 1);
    }
}

/// Every column before the end of the strip lies in exactly one label's region.
pub proof fn lemma_regions_disjoint(widths: Seq<u64>, x: int, i: int, j: int)
    requires
        0 <= i < widths.len(),
        0 <= j < widths.len(),
        offset_of(widths, i) <= x < offset_of(widths, i + 1),
        offset_of(widths, j) <= x < offset_of(widths, j + 1),
    ensures
        i == j,
{
    if i < j {
        lemma_offset_mono(widths, i + 1, j);
    } else if j < i {
        lemma_offset_mono(widths, j + 1, i);
    }
}


/// A key, as the input source reports it.
#[derive(Clone, Copy, PartialEq, Eq, Structural)]
pub enum Key {
    Char(char),
    Right,
    Left,
    Esc,
    Other,
}

/// One outcome of waiting for input.
#[derive(Clone, Copy, PartialEq, Eq, Structural)]
pub enum InputEvent {
    KeyPress(Key),
    KeyOther(Key),
    PointerDown(u64, u64),
    OtherEvent,
    TimedOut,
}

#[derive(Clone, Copy, PartialEq, Eq, Structural)]
pub enum Command {
    MoveNext,
    MovePrevious,
    Quit,
    PointerDown(u64, u64),
    Refresh,
    Ignore,
}

pub open spec fn command_of(e: InputEvent) -> Command {
    match e {
        InputEvent::KeyPress(k) => match k {
            Key::Char(c) => if c == 'l' {
                Command::MoveNext
            } else if c == 'h' {
                Command::MovePrevious
            } else if c == 'q' {
                Command::Quit
            } else {
                Command::Ignore
            },
            Key::Right => Command::MoveNext,
            Key::Left => Command::MovePrevious,
            Key::Esc => Command::Quit,
            Key::Other => Command::Ignore,
        },
        InputEvent::PointerDown(x, y) => Command::PointerDown(x, y),
        InputEvent::TimedOut => Command::Refresh,
        _ => Command::Ignore,
    }
}

/// Turns an input event into the command it asks for.
pub fn classify(e: InputEvent) -> (r: Command)
    ensures
        r == command_of(e),
{
    match e {
        InputEvent::KeyPress(k) => match k {
            Key::Char(c) => if c == 'l' {
                Command::MoveNext
            } else if c == 'h' {
                Command::MovePrevious
            } else if c == 'q' {
                Command::Quit
            } else {
                Command::Ignore
            },
            Key::Right => Command::MoveNext,
            Key::Left => Command::MovePrevious,
            Key::Esc => Command::Quit,
            Key::Other => Command::Ignore,
        },
        InputEvent::PointerDown(x, y) => Command::PointerDown(x, y),
        InputEvent::TimedOut => Command::Refresh,
        _ => Command::Ignore,
    }
}


/// Seconds without input after which the reports are fetched again.
pub const IDLE_INTERVAL_SECS: u64 = 2;

pub open spec fn tab_of(i: int) -> SelectedTab {
    if i == 0 {
        SelectedTab::Due
    } else if i == 1 {
        SelectedTab::Active
    } else {
        SelectedTab::Inbox
    }
}

pub open spec fn tab_name(t: SelectedTab) -> Seq<char> {
    match t {
        SelectedTab::Due => seq!['D', 'u', 'e'],
        SelectedTab::Active => seq!['A', 'c', 't', 'i', 'v', 'e'],
        SelectedTab::Inbox => seq!['I', 'n', 'b', 'o', 'x'],
    }
}

pub open spec fn fetch_args_spec(t: SelectedTab) -> Seq<char> {
    match t {
        SelectedTab::Due => "project.not:Bethany due"@,
        SelectedTab::Active => "project.not:Bethany active"@,
        SelectedTab::Inbox => "-PROJECT"@,
    }
}

pub open spec fn digit_char(d: nat) -> char {
    if d == 0 { '0' } else if d == 1 { '1' } else if d == 2 { '2' } else if d == 3 { '3' }
    else if d == 4 { '4' } else if d == 5 { '5' } else if d == 6 { '6' } else if d == 7 { '7' }
    else if d == 8 { '8' } else { '9' }
}

/// Decimal notation of `n`, most significant digit first.
pub open spec fn decimal(n: nat) -> Seq<char>
    decreases n,
{
    if n < 10 {
        seq![digit_char(n)]
    } else {
        decimal(n / 10) + seq![digit_char(n % 10)]
    }
}

/// The label of a tab whose report is `text`: " Name (rows) ".
pub open spec fn title_spec(t: SelectedTab, text: Seq<char>) -> Seq<char> {
    seq![' '] + tab_name(t) + seq![' ', '('] + decimal(row_count(text)) + seq![')', ' ']
}

pub open spec fn pow10(k: nat) -> nat
    decreases k,
{
    if k == 0 { 1 } else { 10 * pow10((k - 1) as nat) }
}

proof fn lemma_decimal_len(n: nat, k: nat)
    requires
        k >= 1,
        n < pow10(k),
    ensures
        decimal(n).len() <= k,
    decreases k,
{
    reveal_with_fuel(pow10, 2);
    if n >= 10 {
        let k1 = (k - 1) as nat;
        assert(n / 10 < pow10(k1)) by (nonlinear_arith)
            requires n < 10 * pow10(k1), pow10(k) == 10 * pow10(k1);
        if k1 == 0 {
            assert(false);
        }
        lemma_decimal_len(n / 10, k1);
    }
}

/// Every label of a report held in memory is at most 31 characters long.
proof fn lemma_title_short(t: SelectedTab, text: Seq<char>)
    requires
        row_count(text) <= usize::MAX,
    ensures
        title_spec(t, text).len() <= 31,
{
    reveal_with_fuel(pow10, 21);
    assert(pow10(20) == 100000000000000000000nat);
    lemma_decimal_len(row_count(text), 20);
}

impl SelectedTab {
    /// The tab's display name.
    pub fn name(self) -> (r: &'static str)
        ensures
            r@ == tab_name(self),
    {
        match self {
            SelectedTab::Due => {
                proof { reveal_strlit("Due"); }
                "Due"
            },
            SelectedTab::Active => {
                proof { reveal_strlit("Active"); }
                "Active"
            },
            SelectedTab::Inbox => {
                proof { reveal_strlit("Inbox"); }
                "Inbox"
            },
        }
    }

    /// The tab label for a report: its name and its row count.
    pub fn title(self, report: &str) -> (r: String)
        ensures
            r@ == title_spec(self, report@),
    {
        proof {
            reveal_strlit(" ");
            reveal_strlit(" (");
            reveal_strlit(") ");
        }
        let mut s = String::from_str(" ");
        s.append(self.name());
        s.append(" (");
        push_decimal(&mut s, task_count(report));
        s.append(") ");
        s
    }
}

fn digit_str(d: usize) -> (r: &'static str)
    requires
        d < 10,
    ensures
        r@ == seq![digit_char(d as nat)],
{
    proof {
        reveal_strlit("0"); reveal_strlit("1"); reveal_strlit("2"); reveal_strlit("3");
        reveal_strlit("4"); reveal_strlit("5"); reveal_strlit("6"); reveal_strlit("7");
        reveal_strlit("8"); reveal_strlit("9");
    }
    if d == 0 { "0" } else if d == 1 { "1" } else if d == 2 { "2" } else if d == 3 { "3" }
    else if d == 4 { "4" } else if d == 5 { "5" } else if d == 6 { "6" } else if d == 7 { "7" }
    else if d == 8 { "8" } else { "9" }
}

fn push_decimal(s: &mut String, n: usize)
    ensures
        final(s)@ == old(s)@ + decimal(n as nat),
    decreases n,
{
    if n >= 10 {
        push_decimal(s, n / 10);
    }
    s.append(digit_str(n % 10));
    proof {
        if n >= 10 {
            assert(decimal(n as nat) == decimal((n / 10) as nat) + seq![digit_char((n % 10) as nat)]);
        }
    }
}

/// The arguments handed to the report command for a tab.
pub fn fetch_args(t: SelectedTab) -> (r: &'static str)
    ensures
        r@ == fetch_args_spec(t),
{
    match t {
        SelectedTab::Due => "project.not:Bethany due",
        SelectedTab::Active => "project.not:Bethany active",
        SelectedTab::Inbox => "-PROJECT",
    }
}

/// Whether a tab's report is asked for in colour.
pub fn color_mode(t: SelectedTab) -> (r: bool)
    ensures
        r == (t != SelectedTab::Active),
{
    match t {
        SelectedTab::Active => false,
        _ => true,
    }
}

/// The last fetched report text of every tab, in tab order.
pub struct ReportStore {
    reports: Vec<String>,
}

impl ReportStore {
    pub closed spec fn wf(&self) -> bool {
        self.reports@.len() == TAB_COUNT
    }

    /// The stored text of the tab at index `i`.
    pub closed spec fn text(&self, i: int) -> Seq<char> {
        self.reports@[i]@
    }

    pub fn new(texts: Vec<String>) -> (r: ReportStore)
        requires
            texts@.len() == TAB_COUNT,
        ensures
            r.wf(),
            forall|i: int| 0 <= i < TAB_COUNT ==> #[trigger] r.text(i) == texts@[i]@,
    {
        ReportStore { reports: texts }
    }

    /// Replaces every report at once.
    pub fn replace_all(&mut self, texts: Vec<String>)
        requires
            texts@.len() == TAB_COUNT,
        ensures
            final(self).wf(),
            forall|i: int| 0 <= i < TAB_COUNT ==> #[trigger] final(self).text(i) == texts@[i]@,
    {
        self.reports = texts;
    }

    pub fn get(&self, t: SelectedTab) -> (r: &str)
        requires
            self.wf(),
        ensures
            r@ == self.text(tab_index(t) as int),
    {
        self.reports[t.index()].as_str()
    }

    pub fn row_count(&self, t: SelectedTab) -> (r: usize)
        requires
            self.wf(),
        ensures
            r as nat == row_count(self.text(tab_index(t) as int)),
    {
        task_count(self.get(t))
    }

    /// Label widths of the tabs in order, from the current reports.
    pub open spec fn widths_spec(&self) -> Seq<u64> {
        Seq::new(TAB_COUNT as nat, |i: int| title_spec(tab_of(i), self.text(i)).len() as u64)
    }

    pub fn label_widths(&self) -> (r: Vec<u64>)
        requires
            self.wf(),
        ensures
            r@ == self.widths_spec(),
            offset_of(r@, TAB_COUNT as int) <= 93,
    {
        let mut r: Vec<u64> = Vec::new();
        let mut i: usize = 0;
        while i < TAB_COUNT
            invariant
                self.wf(),
                i <= TAB_COUNT,
                r@.len() == i,
                forall|j: int| 0 <= j < i ==> #[trigger] r@[j] == self.widths_spec()[j],
                forall|j: int| 0 <= j < i ==> #[trigger] r@[j] <= 31,
            decreases TAB_COUNT - i,
        {
            let t = match SelectedTab::from_index(i) {
                Some(t) => t,
                None => SelectedTab::Due,
            };
            let title = self.title_of(t);
            proof {
                assert(tab_of(i as int) == t);
                lemma_title_short(t, self.text(i as int));
            }
            r.push(title.as_str().unicode_len() as u64);
            i = i + 1;
        }
        assert(r@ =~= self.widths_spec());
        assert(offset_of(r@, 3) <= 93) by {
            reveal_with_fuel(offset_of, 4);
        }
        r
    }

    fn title_of(&self, t: SelectedTab) -> (r: String)
        requires
            self.wf(),
        ensures
            r@ == title_spec(t, self.text(tab_index(t) as int)),
            row_count(self.text(tab_index(t) as int)) <= usize::MAX,
    {
        // The count fits a usize, which bounds the label's length.
        let _rows = self.row_count(t);
        t.title(self.get(t))
    }
}

/// Why a batch of reports could not be taken.
#[derive(Clone, Copy, Debug, PartialEq, Eq, Structural)]
pub enum FetchError {
    /// The report command failed for some tab.
    Failed,
    /// The batch did not hold exactly one report per tab.
    Incomplete,
}

/// What the event loop does after a step.
#[derive(Clone, Copy, PartialEq, Eq, Structural)]
pub enum Action {
    Continue,
    Refresh,
    Exit,
}

/// Session state: the selected tab, the reports, and whether the loop still runs.
pub struct App {
    pub selected_tab: SelectedTab,
    pub running: bool,
    pub reports: ReportStore,
}

impl App {
    /// Starts a session from the first batch of reports; a failed batch
    /// means no session.
    pub fn start(first: Result<Vec<String>, FetchError>) -> (r: Result<App, FetchError>)
        ensures
            match first {
                Ok(v) => if v@.len() == TAB_COUNT {
                    r.is_ok() && r.unwrap().selected_tab == SelectedTab::Due && r.unwrap().running
                        && r.unwrap().reports.wf()
                        && forall|i: int| 0 <= i < TAB_COUNT ==> #[trigger] r.unwrap().reports.text(i) == v@[i]@
                } else {
                    r == Err::<App, FetchError>(FetchError::Incomplete)
                },
                Err(e) => r == Err::<App, FetchError>(e),
            },
    {
        match first {
            Ok(v) => {
                if v.len() == TAB_COUNT {
                    Ok(App { selected_tab: SelectedTab::Due, running: true, reports: ReportStore::new(v) })
                } else {
                    Err(FetchError::Incomplete)
                }
            },
            Err(e) => Err(e),
        }
    }

    /// Takes a refreshed batch of reports; on a failed batch the previous
    /// reports stay. The selected tab never changes.
    pub fn apply_refresh(&mut self, fetched: Result<Vec<String>, FetchError>) -> (r: Result<(), FetchError>)
        requires
            old(self).reports.wf(),
        ensures
            final(self).reports.wf(),
            final(self).selected_tab == old(self).selected_tab,
            final(self).running == old(self).running,
            match fetched {
                Ok(v) => if v@.len() == TAB_COUNT {
                    r.is_ok() && forall|i: int| 0 <= i < TAB_COUNT ==> #[trigger] final(self).reports.text(i) == v@[i]@
                } else {
                    r == Err::<(), FetchError>(FetchError::Incomplete) && final(self).reports == old(self).reports
                },
                Err(e) => r == Err::<(), FetchError>(e) && final(self).reports == old(self).reports,
            },
    {
        match fetched {
            Ok(v) => {
                if v.len() == TAB_COUNT {
                    self.reports.replace_all(v);
                    Ok(())
                } else {
                    Err(FetchError::Incomplete)
                }
            },
            Err(e) => Err(e),
        }
    }

    pub fn next_tab(&mut self)
        ensures
            final(self).selected_tab == old(self).selected_tab.next_spec(),
            final(self).running == old(self).running,
            final(self).reports == old(self).reports,
    {
        self.selected_tab = self.selected_tab.next();
    }

    pub fn previous_tab(&mut self)
        ensures
            final(self).selected_tab == old(self).selected_tab.previous_spec(),
            final(self).running == old(self).running,
            final(self).reports == old(self).reports,
    {
        self.selected_tab = self.selected_tab.previous();
    }

    pub fn quit(&mut self)
        ensures
            final(self).selected_tab == old(self).selected_tab,
            !final(self).running,
            final(self).reports == old(self).reports,
    {
        self.running = false;
    }

    /// The tab whose label covers column `x` of the tab strip, with label
    /// widths taken from the current reports.
    pub fn mouse_cord_to_tab(&self, x: u64) -> (r: Option<SelectedTab>)
        requires
            self.reports.wf(),
        ensures
            match r {
                Some(t) => offset_of(self.reports.widths_spec(), tab_index(t) as int) <= x
                    < offset_of(self.reports.widths_spec(), tab_index(t) as int + 1),
                None => x >= offset_of(self.reports.widths_spec(), TAB_COUNT as int),
            },
            forall|i: int| 0 <= i < TAB_COUNT && #[trigger] offset_of(self.reports.widths_spec(), i) <= x
                < offset_of(self.reports.widths_spec(), i + 1) ==> r == Some(tab_of(i)),
    {
        let widths = self.reports.label_widths();
        match locate(x, &widths) {
            Some(i) => {
                proof {
                    assert forall|j: int| 0 <= j < TAB_COUNT && #[trigger] offset_of(widths@, j) <= x
                        < offset_of(widths@, j + 1) implies j == i by {
                        lemma_regions_disjoint(widths@, x as int, i as int, j);
                    }
                }
                SelectedTab::from_index(i)
            },
            None => {
                proof {
                    assert forall|j: int| 0 <= j < TAB_COUNT implies !(x < #[trigger] offset_of(widths@, j + 1)) by {
                        lemma_offset_mono(widths@, j + 1, TAB_COUNT as int);
                    }
                }
                None
            },
        }
    }

    /// Applies one command to the session.
    pub fn step(&mut self, cmd: Command, strip_row: u64) -> (a: Action)
        requires
            old(self).reports.wf(),
        ensures
            final(self).reports == old(self).reports,
            match cmd {
                Command::MoveNext => final(self).selected_tab == old(self).selected_tab.next_spec()
                    && final(self).running == old(self).running && a == Action::Continue,
                Command::MovePrevious => final(self).selected_tab == old(self).selected_tab.previous_spec()
                    && final(self).running == old(self).running && a == Action::Continue,
                Command::Quit => final(self).selected_tab == old(self).selected_tab
                    && !final(self).running && a == Action::Exit,
                Command::Refresh => final(self).selected_tab == old(self).selected_tab
                    && final(self).running == old(self).running && a == Action::Refresh,
                Command::Ignore => final(self).selected_tab == old(self).selected_tab
                    && final(self).running == old(self).running && a == Action::Continue,
                Command::PointerDown(x, y) => final(self).running == old(self).running
                    && a == Action::Continue
                    && (y != strip_row || x >= offset_of(old(self).reports.widths_spec(), TAB_COUNT as int)
                        ==> final(self).selected_tab == old(self).selected_tab)
                    && (y == strip_row && x < offset_of(old(self).reports.widths_spec(), TAB_COUNT as int)
                        ==> offset_of(old(self).reports.widths_spec(), tab_index(final(self).selected_tab) as int) <= x
                            < offset_of(old(self).reports.widths_spec(), tab_index(final(self).selected_tab) as int + 1)),
            },
    {
        match cmd {
            Command::MoveNext => {
                self.next_tab();
                Action::Continue
            },
            Command::MovePrevious => {
                self.previous_tab();
                Action::Continue
            },
            Command::Quit => {
                self.quit();
                Action::Exit
            },
            Command::Refresh => Action::Refresh,
            Command::Ignore => Action::Continue,
            Command::PointerDown(x, y) => {
                if y == strip_row {
                    match self.mouse_cord_to_tab(x) {
                        Some(t) => {
                            proof {
                                lemma_offset_mono(self.reports.widths_spec(), tab_index(t) as int + 1, TAB_COUNT as int);
                            }
                            self.selected_tab = t;
                        },
                        None => {},
                    }
                }
                Action::Continue
            },
        }
    }
}

/// The tab reached from `t` by a run of moves, `true` for next and `false`
/// for previous.
pub open spec fn after_moves(t: SelectedTab, moves: Seq<bool>) -> SelectedTab
    decreases moves.len(),
{
    if moves.len() == 0 {
        t
    } else {
        let p = after_moves(t, moves.drop_last());
        if moves.last() { p.next_spec() } else { p.previous_spec() }
    }
}

/// Moving never leaves the tab range, and a run that ends in at least
/// `TAB_COUNT - 1` next moves stands on the last tab (at least that many
/// previous moves: on the first tab).
pub proof fn lemma_moves_saturate(t: SelectedTab, moves: Seq<bool>, k: int)
    requires
        TAB_COUNT - 1 <= k <= moves.len(),
    ensures
        tab_index(after_moves(t, moves)) < TAB_COUNT,
        (forall|i: int| moves.len() - k <= i < moves.len() ==> #[trigger] moves[i])
            ==> after_moves(t, moves) == SelectedTab::Inbox,
        (forall|i: int| moves.len() - k <= i < moves.len() ==> !#[trigger] moves[i])
            ==> after_moves(t, moves) == SelectedTab::Due,
{
    let n = moves.len() as int;
    let m1 = moves.drop_last();
    let m2 = m1.drop_last();
    assert(m1.last() == moves[n - 2]);
    assert(moves.last() == moves[n - 1]);
    let q = after_moves(t, m1);
    assert(q == if m1.last() { after_moves(t, m2).next_spec() } else { after_moves(t, m2).previous_spec() });
    assert(after_moves(t, moves) == if moves.last() { q.next_spec() } else { q.previous_spec() });
}

/// Hits are ordered: a column further right never selects an earlier tab,
/// and a column is in some label's region exactly when it lies before the
/// end of the strip.
pub proof fn lemma_hits_ordered(widths: Seq<u64>, x1: int, x2: int, i: int, j: int)
    requires
        x1 <= x2,
        0 <= i < widths.len(),
        0 <= j < widths.len(),
        offset_of(widths, i) <= x1 < offset_of(widths, i + 1),
        offset_of(widths, j) <= x2 < offset_of(widths, j + 1),
    ensures
        i <= j,
        x1 < offset_of(widths, widths.len() as int),
{
    lemma_offset_mono(widths, i + 1, widths.len() as int);
    if j < i {
        lemma_offset_mono(widths, j + 1, i);
    }
}

} // verus!
