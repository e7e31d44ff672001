//! The stock calculator's saved inputs and its per-symbol history.
//!
//! Prices and amounts are held as the bit patterns of the programs' `f64`
//! values (`f64::to_bits`); two of them are the same input when the `f64`
//! values compare equal (see `same_price`).

use vstd::prelude::*;

verus! {

/// One remembered set of calculator inputs.
#[derive(Clone, Debug, PartialEq, Eq)]
pub struct HistoryEntry {
    pub symbol: String,
    /// Entry price (bit pattern of the `f64`).
    pub entry: u64,
    /// Stop loss price (bit pattern of the `f64`).
    pub stop_loss: u64,
    /// Money risked on the trade (bit pattern of the `f64`).
    pub risk_amount: u64,
    /// Last modification, in seconds since the Unix epoch.
    pub modified: u64,
}

/// Saved state of the stock calculator.
#[derive(Clone, Debug, PartialEq, Eq)]
pub struct CalculatorData {
    pub symbol: String,
    /// Entry price (bit pattern of the `f64`).
    pub entry: u64,
    /// Stop loss price (bit pattern of the `f64`).
    pub stop_loss: u64,
    /// Money risked on the trade (bit pattern of the `f64`).
    pub risk_amount: u64,
    /// One entry per symbol, most recently modified first.
    pub history: Vec<HistoryEntry>,
}

/// The files the programs save their data in; both lie in the same folder
/// (`data_folder()` under the user's data folder).
#[derive(Clone, Copy, Debug, PartialEq, Eq, Structural)]
pub enum SavedFile {
    /// The portfolio.
    Portfolio,
    /// The calculator's inputs and history.
    Calculator,
}

/// The name of the folder that holds the saved files, under the user's
/// data folder.
pub fn data_folder() -> (r: &'static str)
    ensures
        r@ == "StockCalc"@,
{
    "StockCalc"
}

/// The file name of a saved file.
pub open spec fn saved_file_name(f: SavedFile) -> Seq<char> {
    match f {
        SavedFile::Portfolio => "portfolio.json"@,
        SavedFile::Calculator => "stockcalc.json"@,
    }
}

impl SavedFile {
    /// The file's name inside the data folder.
    pub fn file_name(self) -> (r: &'static str)
        ensures
            r@ == saved_file_name(self),
    {
        match self {
            SavedFile::Portfolio => "portfolio.json",
            SavedFile::Calculator => "stockcalc.json",
        }
    }
}

/// The two saved files have different names, so in their shared folder
/// neither overwrites the other.
pub proof fn lemma_saved_files_differ(a: SavedFile, b: SavedFile)
    requires
        a != b,
    ensures
        saved_file_name(a) != saved_file_name(b),
{
    reveal_strlit("portfolio.json");
    reveal_strlit("stockcalc.json");
    assert(saved_file_name(SavedFile::Portfolio)[0] != saved_file_name(SavedFile::Calculator)[0]);
}

/// The abstract value of a history entry.
pub ghost struct Record {
    pub symbol: Seq<char>,
    pub entry: u64,
    pub stop_loss: u64,
    pub risk_amount: u64,
    pub modified: u64,
}

/// The abstract value of the calculator's saved state.
pub ghost struct Calculator {
    pub symbol: Seq<char>,
    pub entry: u64,
    pub stop_loss: u64,
    pub risk_amount: u64,
    pub history: Seq<Record>,
}

impl View for HistoryEntry {
    type V = Record;

    open spec fn view(&self) -> Record {
        Record {
            symbol: self.symbol@,
            entry: self.entry,
            stop_loss: self.stop_loss,
            risk_amount: self.risk_amount,
            modified: self.modified,
        }
    }
}

/// The abstract values of a list of history entries.
pub open spec fn records(v: Seq<HistoryEntry>) -> Seq<Record> {
    v.map_values(|e: HistoryEntry| e@)
}

impl View for CalculatorData {
    type V = Calculator;

    open spec fn view(&self) -> Calculator {
        Calculator {
            symbol: self.symbol@,
            entry: self.entry,
            stop_loss: self.stop_loss,
            risk_amount: self.risk_amount,
            history: records(self.history@),
        }
    }
}

/// The index of the first entry of `h` for `symbol`, if there is one.
pub open spec fn index_of_symbol(h: Seq<Record>, symbol: Seq<char>) -> Option<int>
    decreases h.len(),
{
    if h.len() == 0 {
        None
    } else if h[0].symbol == symbol {
        Some(0)
    } else {
        match index_of_symbol(h.drop_first(), symbol) {
            Some(i) => Some(i + 1),
            None => None,
        }
    }
}

/// The magnitude part of an `f64` bit pattern: all bits but the sign.
pub open spec fn magnitude(bits: u64) -> int {
    bits as int % 0x8000_0000_0000_0000
}

/// The bit pattern is a NaN: all exponent bits set and a non-zero fraction.
pub open spec fn is_nan(bits: u64) -> bool {
    magnitude(bits) > 0x7FF0_0000_0000_0000
}

/// Two `f64` bit patterns whose values compare equal under IEEE 754 `==`:
/// no NaN equals anything, the two zeros are equal, and otherwise the
/// patterns must be the same.
pub open spec fn price_eq(a: u64, b: u64) -> bool {
    !is_nan(a) && !is_nan(b) && (a == b || (magnitude(a) == 0 && magnitude(b) == 0))
}

/// Whether the `f64` values with bit patterns `a` and `b` compare equal.
pub fn same_price(a: u64, b: u64) -> (r: bool)
    ensures
        r == price_eq(a, b),
{
    let ma = a % 0x8000_0000_0000_0000;
    let mb = b % 0x8000_0000_0000_0000;
    ma <= 0x7FF0_0000_0000_0000 && mb <= 0x7FF0_0000_0000_0000 && (a == b || (ma == 0 && mb == 0))
}

/// The entry `e` holds the calculator's current inputs.
pub open spec fn holds_inputs(e: Record, d: Calculator) -> bool {
    &&& price_eq(e.entry, d.entry)
    &&& price_eq(e.stop_loss, d.stop_loss)
    &&& price_eq(e.risk_amount, d.risk_amount)
}

/// None of the calculator's current inputs is a NaN.
pub open spec fn inputs_are_numbers(d: Calculator) -> bool {
    !is_nan(d.entry) && !is_nan(d.stop_loss) && !is_nan(d.risk_amount)
}

/// The calculator's current inputs as a history entry stamped `now`.
pub open spec fn current_record(d: Calculator, now: u64) -> Record {
    Record {
        symbol: d.symbol,
        entry: d.entry,
        stop_loss: d.stop_loss,
        risk_amount: d.risk_amount,
        modified: now,
    }
}

/// `d` after recording its current inputs at time `now`: nothing happens
/// without a symbol or when the symbol's entry already holds these
/// inputs; otherwise the symbol's old entry (if any) leaves and a fresh
/// one goes to the front.
pub open spec fn recorded(d: Calculator, now: u64) -> Calculator {
    if d.symbol.len() == 0 {
        d
    } else {
        match index_of_symbol(d.history, d.symbol) {
            Some(i) => if holds_inputs(d.history[i], d) {
                d
            } else {
                Calculator {
                    history: seq![current_record(d, now)] + d.history.remove(i),
                    ..d
                }
            },
            None => Calculator { history: seq![current_record(d, now)] + d.history, ..d },
        }
    }
}

proof fn lemma_index_of_symbol(h: Seq<Record>, symbol: Seq<char>, k: int)
    requires
        0 <= k <= h.len(),
        forall|j: int| 0 <= j < k ==> h[j].symbol != symbol,
    ensures
        k < h.len() && h[k].symbol == symbol ==> index_of_symbol(h, symbol) == Some(k),
        k == h.len() ==> index_of_symbol(h, symbol) is None,
    decreases k,
{
    if k > 0 {
        assert forall|j: int| 0 <= j < k - 1 implies h.drop_first()[j].symbol != symbol by {
            assert(h.drop_first()[j] == h[j + 1]);
        }
        lemma_index_of_symbol(h.drop_first(), symbol, k - 1);
    }
}

proof fn lemma_index_of_symbol_found(h: Seq<Record>, symbol: Seq<char>)
    ensures
        index_of_symbol(h, symbol) matches Some(i) ==> 0 <= i < h.len() && h[i].symbol == symbol
            && forall|j: int| 0 <= j < i ==> h[j].symbol != symbol,
        index_of_symbol(h, symbol) is None ==> forall|j: int|
            0 <= j < h.len() ==> h[j].symbol != symbol,
    decreases h.len(),
{
    if h.len() > 0 {
        lemma_index_of_symbol_found(h.drop_first(), symbol);
        assert forall|j: int| 1 <= j < h.len() implies h[j] == h.drop_first()[j - 1] by {}
    }
}

/// The clock: `SystemTime::now()`, read as whole seconds since the Unix
/// epoch; `None` when the clock is set before the epoch. Nothing is
/// promised of the reading.
#[verifier::external_body]
fn clock_secs() -> Option<u64> {
    match std::time::SystemTime::now().duration_since(std::time::UNIX_EPOCH) {
        Ok(d) => Some(d.as_secs()),
        Err(_) => None,
    }
}

/// The timestamp recorded for a clock reading: the reading itself, or 0
/// when the clock is set before the Unix epoch.
pub open spec fn timestamp(reading: Option<u64>) -> u64 {
    match reading {
        Some(t) => t,
        None => 0,
    }
}

impl Default for CalculatorData {
    fn default() -> (r: Self)
        ensures
            r@.symbol.len() == 0,
            r.entry == 0 && r.stop_loss == 0 && r.risk_amount == 0,
            r.history@.len() == 0,
    {
        CalculatorData {
            symbol: String::new(),
            entry: 0,
            stop_loss: 0,
            risk_amount: 0,
            history: Vec::new(),
        }
    }
}

impl CalculatorData {
    /// Records the current inputs under their symbol at time `now`,
    /// updating the symbol's existing entry (and its timestamp) only if
    /// something changed. The recorded entry goes to the front.
    pub fn record_history_at(&mut self, now: u64)
        ensures
            final(self)@ == recorded(old(self)@, now),
    {
        if self.symbol.as_str().is_empty() {
            return;
        }
        let ghost h0 = records(self.history@);
        let mut i: usize = 0;
        while i < self.history.len() && !(self.history[i].symbol == self.symbol)
            invariant
                i <= self.history.len(),
                h0 == records(self.history@),
                forall|j: int| 0 <= j < i ==> h0[j].symbol != self.symbol@,
            decreases self.history.len() - i,
        {
            i += 1;
        }
        proof {
            lemma_index_of_symbol(h0, self.symbol@, i as int);
        }
        let fresh = HistoryEntry {
            symbol: self.symbol.clone(),
            entry: self.entry,
            stop_loss: self.stop_loss,
            risk_amount: self.risk_amount,
            modified: now,
        };
        assert(fresh@ == current_record(self@, now));
        if i < self.history.len() {
            let e = &self.history[i];
            if same_price(e.entry, self.entry) && same_price(e.stop_loss, self.stop_loss)
                && same_price(e.risk_amount, self.risk_amount) {
                return;
            }
            self.history.remove(i);
            assert(records(self.history@) =~= h0.remove(i as int));
        }
        let ghost h1 = self.history@;
        self.history.insert(0, fresh);
        assert(records(self.history@) =~= seq![fresh@] + records(h1));
    }

    /// Records the current inputs under their symbol, stamped with the
    /// clock's reading in seconds since the Unix epoch (0 when the clock is
    /// set before the epoch); see `record_history_at`.
    pub fn record_history(&mut self)
        ensures
            exists|reading: Option<u64>| final(self)@ == recorded(old(self)@, timestamp(reading)),
    {
        let reading = clock_secs();
        let now = match reading {
            Some(t) => t,
            None => 0,
        };
        assert(now == timestamp(reading));
        self.record_history_at(now);
    }
}


/// No two entries of `h` are for the same symbol.
pub open spec fn one_entry_per_symbol(h: Seq<Record>) -> bool {
    forall|i: int, j: int| 0 <= i < j < h.len() ==> h[i].symbol != h[j].symbol
}

/// Recording keeps the history at one entry per symbol.
pub proof fn lemma_record_keeps_one_entry_per_symbol(d: Calculator, now: u64)
    requires
        one_entry_per_symbol(d.history),
    ensures
        one_entry_per_symbol(recorded(d, now).history),
{
    lemma_index_of_symbol_found(d.history, d.symbol);
    let r = recorded(d, now);
    if d.symbol.len() > 0 && r != d {
        let h = d.history;
        match index_of_symbol(h, d.symbol) {
            Some(k) => {
                let rest = h.remove(k);
                assert forall|i: int, j: int| 0 <= i < j < r.history.len() implies r.history[i].symbol
                    != r.history[j].symbol by {
                    let jj = if j - 1 < k { j - 1 } else { j };
                    assert(r.history[j] == rest[j - 1]);
                    assert(rest[j - 1] == h[jj]);
                    if i > 0 {
                        let ii = if i - 1 < k { i - 1 } else { i };
                        assert(r.history[i] == h[ii]);
                    } else {
                        assert(h[k].symbol == d.symbol);
                    }
                }
            },
            None => {
                assert forall|i: int, j: int| 0 <= i < j < r.history.len() implies r.history[i].symbol
                    != r.history[j].symbol by {
                    assert(r.history[j] == h[j - 1]);
                    if i > 0 {
                        assert(r.history[i] == h[i - 1]);
                    }
                }
            },
        }
    }
}

/// Recording again with unchanged inputs changes nothing, not even a
/// timestamp.
pub proof fn lemma_record_twice(d: Calculator, now: u64, later: u64)
    requires
        inputs_are_numbers(d),
    ensures
        recorded(recorded(d, now), later) == recorded(d, now),
{
    let r = recorded(d, now);
    if d.symbol.len() > 0 && r != d {
        assert(r.history[0] == current_record(d, now));
        assert(index_of_symbol(r.history, r.symbol) == Some(0int));
    }
}

/// After recording, the entry for the current symbol holds the current
/// inputs; when the history changed, that entry is the first one and is
/// stamped with the time of recording.
pub proof fn lemma_record_holds_inputs(d: Calculator, now: u64)
    requires
        d.symbol.len() > 0,
        inputs_are_numbers(d),
    ensures
        index_of_symbol(recorded(d, now).history, d.symbol) matches Some(i) && holds_inputs(
            recorded(d, now).history[i],
            d,
        ),
        recorded(d, now) != d ==> recorded(d, now).history[0] == current_record(d, now),
{
    let r = recorded(d, now);
    if r != d {
        assert(r.history[0] == current_record(d, now));
        assert(index_of_symbol(r.history, d.symbol) == Some(0int));
    }
}

/// The entries of `h` are ordered newest first by their timestamps.
pub open spec fn newest_first(h: Seq<Record>) -> bool {
    forall|i: int, j: int| 0 <= i < j < h.len() ==> h[j].modified <= h[i].modified
}

/// Recording keeps the history newest first, as long as no entry is newer
/// than the time of recording.
pub proof fn lemma_record_keeps_newest_first(d: Calculator, now: u64)
    requires
        newest_first(d.history),
        forall|i: int| 0 <= i < d.history.len() ==> d.history[i].modified <= now,
    ensures
        newest_first(recorded(d, now).history),
{
    let r = recorded(d, now);
    if d.symbol.len() > 0 && r != d {
        let h = d.history;
        match index_of_symbol(h, d.symbol) {
            Some(k) => {
                lemma_index_of_symbol_found(h, d.symbol);
                let rest = h.remove(k);
                assert forall|i: int, j: int| 0 <= i < j < r.history.len() implies r.history[j].modified
                    <= r.history[i].modified by {
                    let jj = if j - 1 < k { j - 1 } else { j };
                    assert(r.history[j] == rest[j - 1]);
                    assert(rest[j - 1] == h[jj]);
                    if i > 0 {
                        let ii = if i - 1 < k { i - 1 } else { i };
                        assert(r.history[i] == h[ii]);
                    }
                }
            },
            None => {
                assert forall|i: int, j: int| 0 <= i < j < r.history.len() implies r.history[j].modified
                    <= r.history[i].modified by {
                    assert(r.history[j] == h[j - 1]);
                    if i > 0 {
                        assert(r.history[i] == h[i - 1]);
                    }
                }
            },
        }
    }
}

/// After recording with a symbol and inputs that are numbers, the first
/// history entry for the symbol has the current entry price, stop loss and
/// risk amount, each equal as an `f64` to the input: a change of any one of
/// the three is recorded.
pub proof fn lemma_record_takes_all_inputs(d: Calculator, now: u64)
    requires
        d.symbol.len() > 0,
        !is_nan(d.entry),
        !is_nan(d.stop_loss),
        !is_nan(d.risk_amount),
    ensures
        exists|i: int|
            #![trigger recorded(d, now).history[i]]
            0 <= i < recorded(d, now).history.len()
            && recorded(d, now).history[i].symbol == d.symbol
            && (forall|j: int| 0 <= j < i ==> recorded(d, now).history[j].symbol != d.symbol)
            && price_eq(recorded(d, now).history[i].entry, d.entry)
            && price_eq(recorded(d, now).history[i].stop_loss, d.stop_loss)
            && price_eq(recorded(d, now).history[i].risk_amount, d.risk_amount),
{
    lemma_record_holds_inputs(d, now);
    let h = recorded(d, now).history;
    lemma_index_of_symbol_found(h, d.symbol);
    let i = index_of_symbol(h, d.symbol)->0;
    assert(h[i].symbol == d.symbol);
}

/// The entries of `h` for symbols other than `symbol`, in order.
pub open spec fn other_entries(h: Seq<Record>, symbol: Seq<char>) -> Seq<Record> {
    h.filter(|e: Record| e.symbol != symbol)
}

/// Recording touches only the entry of the current symbol: the entries of
/// every other symbol stay, unchanged and in their order.
pub proof fn lemma_record_keeps_other_symbols(d: Calculator, now: u64)
    ensures
        other_entries(recorded(d, now).history, d.symbol) == other_entries(d.history, d.symbol),
{
    let r = recorded(d, now);
    let p = |e: Record| e.symbol != d.symbol;
    if d.symbol.len() > 0 && r != d {
        let h = d.history;
        let fresh = seq![current_record(d, now)];
        reveal_with_fuel(Seq::filter, 2);
        assert(fresh.drop_last() =~= Seq::<Record>::empty());
        assert(fresh.filter(p) =~= Seq::<Record>::empty());
        match index_of_symbol(h, d.symbol) {
            Some(k) => {
                lemma_index_of_symbol_found(h, d.symbol);
                let x = h.take(k);
                let one = seq![h[k]];
                let y = h.skip(k + 1);
                assert(h =~= x + one + y);
                assert(h.remove(k) =~= x + y);
                assert(one.drop_last() =~= Seq::<Record>::empty());
                assert(one.filter(p) =~= Seq::<Record>::empty());
                Seq::filter_distributes_over_add(x + one, y, p);
                Seq::filter_distributes_over_add(x, one, p);
                Seq::filter_distributes_over_add(x, y, p);
                Seq::filter_distributes_over_add(fresh, x + y, p);
                assert(r.history == fresh + (x + y));
                assert(h.filter(p) =~= x.filter(p) + y.filter(p));
                assert(r.history.filter(p) =~= x.filter(p) + y.filter(p));
            },
            None => {
                Seq::filter_distributes_over_add(fresh, h, p);
                assert(r.history == fresh + h);
                assert(r.history.filter(p) =~= h.filter(p));
            },
        }
    }
}

} // verus!
