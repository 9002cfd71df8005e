//! Correlation of server log lines into transactions by their identifier.

use vstd::prelude::*;
use vstd::string::*;
use crate::logparser::entries::{
    is_log_line, lemma_first_occurrence_unique, log_entry_of, mark, mark_position, ErrorEntry,
    ErrorEntryView, HandoffEntry, HandoffEntryView, LogLine, LogParse, RequestEntry, RequestEntryView,
};
use crate::logparser::text::{chars_of, field_bounds, find_first, has_prefix};

pub mod entries;
pub mod text;

verus! {

broadcast use vstd::string::group_string_axioms;

/// All that the log holds of one transaction.
#[derive(Debug, Clone)]
pub struct Transaction {
    pub txid: String,
    pub entries: Vec<RequestEntry>,
    pub errors: Vec<ErrorEntry>,
    pub handoffs: u8,
}

/// The mathematical content of a `Transaction`.
pub struct TransactionView {
    pub txid: Seq<char>,
    pub entries: Seq<RequestEntryView>,
    pub errors: Seq<ErrorEntryView>,
    pub handoffs: u8,
}

/// The items of a list, each by its content.
pub open spec fn items_of<T: View>(items: Vec<T>) -> Seq<T::V> {
    Seq::new(items@.len(), |i: int| items@[i]@)
}

impl View for Transaction {
    type V = TransactionView;

    open spec fn view(&self) -> TransactionView {
        TransactionView {
            txid: self.txid@,
            entries: items_of(self.entries),
            errors: items_of(self.errors),
            handoffs: self.handoffs,
        }
    }
}

impl Transaction {
    /// The line that stands for a transaction: its identifier and a line
    /// feed.
    pub fn to_text(&self) -> (r: String)
        ensures
            r@ == self@.txid.push('\n'),
    {
        proof {
            reveal_strlit("\n");
        }
        let r = self.txid.clone().concat("\n");
        assert(r@ =~= self@.txid.push('\n'));
        r
    }
}

/// A request as a proxy server sees it.
pub struct ProxyReq;

/// What can be asked of a request.
pub trait HTTPReq {
    fn status_code(&self) -> u8;
}

impl HTTPReq for ProxyReq {
    /// A proxy request has no status of its own: always 0.
    fn status_code(&self) -> (code: u8)
        ensures
            code == 0,
    {
        0
    }
}

/// The groups of a list, each by its key and its items' content.
pub open spec fn groups_of<T: View>(groups: Vec<(String, Vec<T>)>) -> Seq<(Seq<char>, Seq<T::V>)> {
    Seq::new(groups@.len(), |i: int| (groups@[i].0@, items_of(groups@[i].1)))
}

/// The lines of a list, each by its text.
pub open spec fn lines_of(lines: Vec<LogLine>) -> Seq<Seq<char>> {
    Seq::new(lines@.len(), |i: int| lines@[i]@)
}

/// The texts of a list of strings.
pub open spec fn texts_of(lines: Vec<String>) -> Seq<Seq<char>> {
    Seq::new(lines@.len(), |i: int| lines@[i]@)
}

/// The entries of one kind among some lines, in the order of the lines,
/// each with the identifier of its transaction.
pub open spec fn entries_of<T: LogParse>(lines: Seq<Seq<char>>) -> Seq<(Seq<char>, T::V)>
    decreases lines.len(),
{
    if lines.len() == 0 {
        Seq::empty()
    } else {
        let before = entries_of::<T>(lines.drop_last());
        match T::parsed(log_entry_of(lines.last())) {
            Some(entry) => before.push(entry),
            None => before,
        }
    }
}

/// The lines that are no entry of one kind, in their order.
pub open spec fn rejects_of<T: LogParse>(lines: Seq<Seq<char>>) -> Seq<Seq<char>>
    decreases lines.len(),
{
    if lines.len() == 0 {
        Seq::empty()
    } else {
        let before = rejects_of::<T>(lines.drop_last());
        match T::parsed(log_entry_of(lines.last())) {
            Some(_) => before,
            None => before.push(lines.last()),
        }
    }
}

/// The place of the first group that is keyed `key`.
pub open spec fn group_index<V>(groups: Seq<(Seq<char>, Seq<V>)>, key: Seq<char>) -> Option<int>
    decreases groups.len(),
{
    if groups.len() == 0 {
        None
    } else {
        match group_index(groups.drop_last(), key) {
            Some(i) => Some(i),
            None => if groups.last().0 == key {
                Some(groups.len() - 1)
            } else {
                None
            },
        }
    }
}

/// The items of the group that is keyed `key`; none where there is no such
/// group.
pub open spec fn group_items<V>(groups: Seq<(Seq<char>, Seq<V>)>, key: Seq<char>) -> Seq<V> {
    match group_index(groups, key) {
        Some(i) => groups[i].1,
        None => Seq::empty(),
    }
}

/// Groups with one more item: at the end of the group of its key, or in a
/// new last group where no group has that key yet.
pub open spec fn add_to_groups<V>(groups: Seq<(Seq<char>, Seq<V>)>, key: Seq<char>, item: V) -> Seq<
    (Seq<char>, Seq<V>),
> {
    match group_index(groups, key) {
        Some(i) => groups.update(i, (key, groups[i].1.push(item))),
        None => groups.push((key, seq![item])),
    }
}

/// Keyed items put into groups: the groups stand in the order in which
/// their keys first occur, and the items of a group in the order in which
/// they occur.
pub open spec fn grouped<V>(items: Seq<(Seq<char>, V)>) -> Seq<(Seq<char>, Seq<V>)>
    decreases items.len(),
{
    if items.len() == 0 {
        Seq::empty()
    } else {
        add_to_groups(grouped(items.drop_last()), items.last().0, items.last().1)
    }
}

/// The transactions among the first `n` groups of requests: every group
/// but those of a single request, with the errors and the count of
/// handoffs of the same identifier. The count is kept modulo 256.
pub open spec fn correlated(
    requests: Seq<(Seq<char>, Seq<RequestEntryView>)>,
    errors: Seq<(Seq<char>, Seq<ErrorEntryView>)>,
    handoffs: Seq<(Seq<char>, Seq<HandoffEntryView>)>,
    n: nat,
) -> Seq<TransactionView>
    decreases n,
{
    if n == 0 {
        Seq::empty()
    } else {
        let before = correlated(requests, errors, handoffs, (n - 1) as nat);
        let (txid, entries) = requests[n - 1];
        if entries.len() == 1 {
            before
        } else {
            before.push(
                TransactionView {
                    txid,
                    entries,
                    errors: group_items(errors, txid),
                    handoffs: (group_items(handoffs, txid).len() % 256) as u8,
                },
            )
        }
    }
}

/// Whether a line can be parsed: it has a head, and where it begins like an
/// error or a handoff and bears the transaction mark, the identifier behind
/// the mark is whole.
pub open spec fn line_ok(line: Seq<char>) -> bool {
    &&& is_log_line(line)
    &&& ErrorEntry::parseable(log_entry_of(line))
    &&& HandoffEntry::parseable(log_entry_of(line))
}

/// The transactions of a log. A line is an error where it parses as one,
/// else a handoff where it parses as one, else a request where it parses
/// as one, else nothing.
pub open spec fn transactions_of(lines: Seq<Seq<char>>) -> Seq<TransactionView> {
    let errors = grouped(entries_of::<ErrorEntry>(lines));
    let others = rejects_of::<ErrorEntry>(lines);
    let handoffs = grouped(entries_of::<HandoffEntry>(others));
    let requests = grouped(entries_of::<RequestEntry>(rejects_of::<HandoffEntry>(others)));
    correlated(requests, errors, handoffs, requests.len())
}

/// The first group of a key is a group of that key with none of that key
/// before it; there is none exactly where no group has that key.
pub proof fn lemma_group_index<V>(groups: Seq<(Seq<char>, Seq<V>)>, key: Seq<char>)
    ensures
        match group_index(groups, key) {
            Some(i) => 0 <= i < groups.len() && groups[i].0 == key && forall|j: int|
                0 <= j < i ==> (#[trigger] groups[j]).0 != key,
            None => forall|j: int| 0 <= j < groups.len() ==> (#[trigger] groups[j]).0 != key,
        },
    decreases groups.len(),
{
    if groups.len() > 0 {
        lemma_group_index(groups.drop_last(), key);
        match group_index(groups.drop_last(), key) {
            Some(i) => {
                assert(groups.drop_last()[i] == groups[i]);
                assert forall|j: int| 0 <= j < i implies (#[trigger] groups[j]).0 != key by {
                    assert(groups.drop_last()[j] == groups[j]);
                }
            },
            None => {
                assert forall|j: int| 0 <= j < groups.len() - 1 implies (#[trigger] groups[j]).0 != key by {
                    assert(groups.drop_last()[j] == groups[j]);
                }
            },
        }
    }
}

/// Whether no two groups share a key and no group is empty.
pub open spec fn well_grouped<V>(groups: Seq<(Seq<char>, Seq<V>)>) -> bool {
    &&& forall|i: int, j: int|
        0 <= i < j < groups.len() ==> (#[trigger] groups[i]).0 != (#[trigger] groups[j]).0
    &&& forall|i: int| 0 <= i < groups.len() ==> (#[trigger] groups[i]).1.len() > 0
}

/// Grouping gives every key one group, and every group at least one item:
/// what a map from keys to lists would give.
pub proof fn lemma_grouped<V>(items: Seq<(Seq<char>, V)>)
    ensures
        well_grouped(grouped(items)),
        grouped(items).len() <= items.len(),
    decreases items.len(),
{
    if items.len() > 0 {
        let before = grouped(items.drop_last());
        let key = items.last().0;
        lemma_grouped(items.drop_last());
        lemma_group_index(before, key);
        let after = grouped(items);
        match group_index(before, key) {
            Some(g) => {
                assert forall|i: int, j: int| 0 <= i < j < after.len() implies (#[trigger] after[i]).0 != (
                #[trigger] after[j]).0 by {
                    assert(after[i].0 == before[i].0);
                    assert(after[j].0 == before[j].0);
                }
                assert forall|i: int| 0 <= i < after.len() implies (#[trigger] after[i]).1.len() > 0 by {
                    if i != g {
                        assert(after[i] == before[i]);
                    }
                }
            },
            None => {
                assert forall|i: int, j: int| 0 <= i < j < after.len() implies (#[trigger] after[i]).0 != (
                #[trigger] after[j]).0 by {
                    assert(after[i] == before[i]);
                    if j < before.len() {
                        assert(after[j] == before[j]);
                    }
                }
                assert forall|i: int| 0 <= i < after.len() implies (#[trigger] after[i]).1.len() > 0 by {
                    if i < before.len() {
                        assert(after[i] == before[i]);
                    }
                }
            },
        }
    }
}

/// Every line that is rejected is one of the lines.
pub proof fn lemma_rejects_are_lines<T: LogParse>(lines: Seq<Seq<char>>)
    ensures
        forall|k: int|
            0 <= k < rejects_of::<T>(lines).len() ==> lines.contains(#[trigger] rejects_of::<T>(lines)[k]),
    decreases lines.len(),
{
    if lines.len() > 0 {
        let front = lines.drop_last();
        lemma_rejects_are_lines::<T>(front);
        assert forall|k: int| 0 <= k < rejects_of::<T>(lines).len() implies lines.contains(
            #[trigger] rejects_of::<T>(lines)[k],
        ) by {
            if k < rejects_of::<T>(front).len() {
                let line = rejects_of::<T>(front)[k];
                let i = choose|i: int| 0 <= i < front.len() && front[i] == line;
                assert(lines[i] == line);
            } else {
                assert(lines[lines.len() - 1] == rejects_of::<T>(lines)[k]);
            }
        }
    }
}

/// Finds the first group that is keyed like `key`.
pub fn find_group<T: View>(groups: &Vec<(String, Vec<T>)>, key: &String) -> (r: Option<usize>)
    ensures
        match r {
            Some(i) => group_index(groups_of(*groups), key@) == Some(i as int) && i < groups@.len(),
            None => group_index(groups_of(*groups), key@) is None,
        },
{
    let mut i: usize = 0;
    while i < groups.len()
        invariant
            i <= groups@.len(),
            forall|j: int| 0 <= j < i ==> (#[trigger] groups_of(*groups)[j]).0 != key@,
        decreases groups@.len() - i,
    {
        if groups[i].0 == *key {
            assert(groups_of(*groups)[i as int].0 == key@);
            proof {
                lemma_group_index(groups_of(*groups), key@);
            }
            return Some(i);
        }
        assert(groups_of(*groups)[i as int].0 != key@);
        i = i + 1;
    }
    proof {
        lemma_group_index(groups_of(*groups), key@);
    }
    None
}

/// Sorts the lines into the entries of one kind, grouped by transaction,
/// and the lines that are no such entry, which are left in `e` in their
/// order.
pub fn parse_transactions<T: LogParse>(e: &mut Vec<LogLine>) -> (groups: Vec<(String, Vec<T>)>)
    requires
        forall|i: int|
            0 <= i < old(e)@.len() ==> is_log_line((#[trigger] old(e)@[i])@) && T::parseable(
                log_entry_of(old(e)@[i]@),
            ),
    ensures
        lines_of(*final(e)) == rejects_of::<T>(lines_of(*old(e))),
        groups_of(groups) == grouped(entries_of::<T>(lines_of(*old(e)))),
{
    let ghost lines = lines_of(*e);
    let mut groups: Vec<(String, Vec<T>)> = Vec::new();
    let mut rest: Vec<LogLine> = Vec::new();
    let mut i: usize = 0;
    assert(lines.take(0) =~= Seq::<Seq<char>>::empty());
    assert(lines_of(rest) =~= rejects_of::<T>(lines.take(0)));
    assert(groups_of(groups) =~= grouped(entries_of::<T>(lines.take(0))));
    while i < e.len()
        invariant
            i <= e@.len(),
            lines == lines_of(*e),
            forall|j: int|
                0 <= j < e@.len() ==> is_log_line((#[trigger] e@[j])@) && T::parseable(log_entry_of(e@[j]@)),
            lines_of(rest) == rejects_of::<T>(lines.take(i as int)),
            groups_of(groups) == grouped(entries_of::<T>(lines.take(i as int))),
        decreases e@.len() - i,
    {
        let ghost before = groups_of(groups);
        let ghost kept = lines_of(rest);
        assert(lines.take(i + 1).drop_last() =~= lines.take(i as int));
        assert(lines.take(i + 1).last() == e@[i as int]@);
        let entry = e[i].to_log_entry();
        let ghost next = lines.take(i + 1);
        match T::parse(&entry) {
            Some((txid, item)) => {
                proof {
                    let found = entries_of::<T>(lines.take(i as int));
                    assert(entries_of::<T>(next) == found.push((txid@, item@)));
                    assert(found.push((txid@, item@)).drop_last() =~= found);
                    assert(grouped(entries_of::<T>(next)) == add_to_groups(before, txid@, item@));
                }
                match find_group(&groups, &txid) {
                    Some(g) => {
                        groups[g].1.push(item);
                        assert(groups_of(groups) =~= before.update(
                            g as int,
                            (txid@, before[g as int].1.push(item@)),
                        )) by {
                            lemma_group_index(before, txid@);
                            assert(items_of(groups@[g as int].1) =~= before[g as int].1.push(item@));
                        }
                    },
                    None => {
                        let mut items: Vec<T> = Vec::new();
                        items.push(item);
                        assert(items_of(items) =~= seq![item@]);
                        groups.push((txid, items));
                        assert(groups_of(groups) =~= before.push((txid@, seq![item@])));
                    },
                }
            },
            None => {
                rest.push(LogLine { line: e[i].line.clone() });
                assert(lines_of(rest) =~= kept.push(e@[i as int]@));
            },
        }
        i = i + 1;
    }
    assert(lines.take(e@.len() as int) =~= lines);
    *e = rest;
    groups
}

/// Copies a list of errors.
pub fn copy_errors(errors: &Vec<ErrorEntry>) -> (copy: Vec<ErrorEntry>)
    ensures
        items_of(copy) == items_of(*errors),
{
    let mut copy: Vec<ErrorEntry> = Vec::new();
    let mut i: usize = 0;
    while i < errors.len()
        invariant
            i <= errors@.len(),
            copy@.len() == i,
            forall|j: int| 0 <= j < i ==> (#[trigger] copy@[j])@ == errors@[j]@,
        decreases errors@.len() - i,
    {
        copy.push(ErrorEntry { common: errors[i].common.copy(), error: errors[i].error.clone() });
        i = i + 1;
    }
    assert(items_of(copy) =~= items_of(*errors));
    copy
}

/// Tells whether a line can be parsed.
pub fn check_line(line: &str) -> (ok: bool)
    ensures
        ok == line_ok(line@),
{
    let chars = chars_of(line);
    let bounds = field_bounds(&chars);
    if bounds.len() < 5 {
        return false;
    }
    let entry = LogLine::new(line).to_log_entry();
    let rest = entry.1.as_str();
    let bytes = rest.as_bytes();
    if !has_prefix(bytes, "ERROR".as_bytes()) && !has_prefix(bytes, "Handoff".as_bytes()) {
        return true;
    }
    match find_first(bytes, "txn: tx".as_bytes()) {
        Some(at) => {
            proof {
                lemma_first_occurrence_unique(bytes@, mark(), at as int, mark_position(rest@));
            }
            bytes.len() >= 39 && at <= bytes.len() - 39 && rest.is_char_boundary(at + 5)
                && rest.is_char_boundary(at + 39)
        },
        None => true,
    }
}

/// Correlates the lines of a log into transactions.
///
/// Every line is first tried as an error, what is left as a handoff, and
/// what is left then as a request. A transaction comes out for every
/// identifier that two or more requests bear, in the order in which the
/// identifiers first occur among the requests; it holds those requests, the
/// errors of the same identifier, and the number of its handoffs modulo 256.
pub fn parse_it(lines: &Vec<String>) -> (trans: Vec<Transaction>)
    requires
        forall|i: int| 0 <= i < lines@.len() ==> line_ok((#[trigger] lines@[i])@),
    ensures
        items_of(trans) == transactions_of(texts_of(*lines)),
{
    let ghost texts = texts_of(*lines);
    let mut entries: Vec<LogLine> = Vec::new();
    let mut i: usize = 0;
    while i < lines.len()
        invariant
            i <= lines@.len(),
            entries@.len() == i,
            forall|j: int| 0 <= j < i ==> (#[trigger] entries@[j])@ == lines@[j]@,
        decreases lines@.len() - i,
    {
        entries.push(LogLine::new(lines[i].as_str()));
        i = i + 1;
    }
    assert(lines_of(entries) =~= texts);
    let temap: Vec<(String, Vec<ErrorEntry>)> = parse_transactions(&mut entries);
    let ghost others = rejects_of::<ErrorEntry>(texts);
    proof {
        lemma_rejects_are_lines::<ErrorEntry>(texts);
        assert forall|j: int| 0 <= j < entries@.len() implies line_ok((#[trigger] entries@[j])@) by {
            assert(others[j] == entries@[j]@);
            let k = choose|k: int| 0 <= k < texts.len() && texts[k] == others[j];
            assert(line_ok(lines@[k]@));
        }
    }
    let hmap: Vec<(String, Vec<HandoffEntry>)> = parse_transactions(&mut entries);
    let ghost last = rejects_of::<HandoffEntry>(others);
    proof {
        lemma_rejects_are_lines::<HandoffEntry>(others);
        assert forall|j: int| 0 <= j < entries@.len() implies is_log_line((#[trigger] entries@[j])@) by {
            assert(last[j] == entries@[j]@);
            let m = choose|m: int| 0 <= m < others.len() && others[m] == last[j];
            let k = choose|k: int| 0 <= k < texts.len() && texts[k] == others[m];
            assert(line_ok(lines@[k]@));
        }
    }
    let rmap: Vec<(String, Vec<RequestEntry>)> = parse_transactions(&mut entries);
    let ghost requests = groups_of(rmap);
    let ghost errors = groups_of(temap);
    let ghost handoffs = groups_of(hmap);
    let mut trans: Vec<Transaction> = Vec::new();
    for group in it: rmap
        invariant
            it.seq() == rmap@,
            requests == groups_of(rmap),
            errors == groups_of(temap),
            handoffs == groups_of(hmap),
            items_of(trans) == correlated(requests, errors, handoffs, it.index() as nat),
    {
        let ghost done = items_of(trans);
        let (txid, r_entries) = group;
        assert(requests[it.index() as int] == (txid@, items_of(r_entries)));
        if r_entries.len() != 1 {
            let e_entries: Vec<ErrorEntry> = match find_group(&temap, &txid) {
                Some(g) => copy_errors(&temap[g].1),
                None => Vec::new(),
            };
            assert(items_of(e_entries) =~= group_items(errors, txid@));
            let count: usize = match find_group(&hmap, &txid) {
                Some(g) => hmap[g].1.len(),
                None => 0,
            };
            assert(count == group_items(handoffs, txid@).len());
            let t = Transaction { txid, entries: r_entries, errors: e_entries, handoffs: (count % 256) as u8 };
            trans.push(t);
            assert(items_of(trans) =~= done.push(t@));
        }
    }
    trans
}

} // verus!
