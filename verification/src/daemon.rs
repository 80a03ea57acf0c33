//! Key sequence matching and the daemon's state machine.

use crate::cfgfile::{Action, ActionView, BindingView, Config};
use crate::keyseq::{Key, KeySequence};
use crate::AhkdError;
use vstd::prelude::*;

verus! {

/// The result of matching the keys seen so far with one key sequence.
#[derive(PartialEq, Eq, Structural, Debug, Clone, Copy)]
pub enum SeqMatch {
    /// The keys seen cannot lead to the sequence.
    Mismatch,
    /// The keys seen are the beginning of the sequence, and more are needed.
    Partial,
    /// The keys seen are exactly the sequence.
    Full,
}

/// `seen` is the beginning of `seq`, and `seq` goes on after it.
pub open spec fn is_strict_prefix(seen: Seq<Key>, seq: Seq<Key>) -> bool {
    seen.len() < seq.len() && seq.subrange(0, seen.len() as int) =~= seen
}

/// How the keys seen so far stand to one key sequence.
pub open spec fn seq_match(seq: Seq<Key>, seen: Seq<Key>) -> SeqMatch {
    if seen =~= seq {
        SeqMatch::Full
    } else if is_strict_prefix(seen, seq) {
        SeqMatch::Partial
    } else {
        SeqMatch::Mismatch
    }
}

/// Matches a key sequence with a set of keys we've seen from the user.
pub fn match_keyseq(seq: &KeySequence, seen_keys: &[Key]) -> (r: SeqMatch)
    ensures
        r == seq_match(seq@, seen_keys@),
{
    if seen_keys.len() > seq.keys.len() {
        return SeqMatch::Mismatch;
    }
    let mut i: usize = 0;
    while i < seen_keys.len()
        invariant
            i <= seen_keys@.len() <= seq.keys@.len(),
            forall|j: int| 0 <= j < i ==> seq.keys@[j] == seen_keys@[j],
        decreases seen_keys.len() - i,
    {
        if seq.keys[i] != seen_keys[i] {
            return SeqMatch::Mismatch;
        }
        i += 1;
    }
    if seq.keys.len() == seen_keys.len() {
        SeqMatch::Full
    } else {
        SeqMatch::Partial
    }
}

/// What the keys seen so far amount to, given every key sequence we listen for.
pub enum Evaluation {
    /// No key sequence begins with the keys seen: a dead end.
    NoMatch,
    /// The keys seen begin one or more longer key sequences; these are the
    /// keys that may come next, each once, in the order of the bindings that
    /// first ask for them.
    Partial(Seq<Key>),
    /// The keys seen are exactly the key sequence of the binding at this
    /// position, the first such in the table.
    Full(int),
}

/// The binding at position `i` has exactly the keys seen.
pub open spec fn is_exact_at(table: Seq<BindingView>, seen: Seq<Key>, i: int) -> bool {
    0 <= i < table.len() && table[i].keys =~= seen
}

/// The binding at position `i` is the first one that has exactly the keys seen.
pub open spec fn is_first_exact(table: Seq<BindingView>, seen: Seq<Key>, i: int) -> bool {
    is_exact_at(table, seen, i) && forall|j: int| 0 <= j < i ==> !is_exact_at(table, seen, j)
}

/// The binding at position `i` goes on after the keys seen, with `k` as its next key.
pub open spec fn asks_next(table: Seq<BindingView>, seen: Seq<Key>, i: int, k: Key) -> bool {
    0 <= i < table.len() && is_strict_prefix(seen, table[i].keys) && table[i].keys[
        seen.len() as int
    ] == k
}

/// The keys that would take the keys seen one step further along some binding.
pub open spec fn next_keys(table: Seq<BindingView>, seen: Seq<Key>) -> Set<Key> {
    Set::new(|k: Key| exists|i: int| asks_next(table, seen, i, k))
}

/// The keys of `next_keys`, each once, ordered by the first binding that asks for it.
pub open spec fn next_key_list(table: Seq<BindingView>, seen: Seq<Key>) -> Seq<Key>
    decreases table.len(),
{
    if table.len() == 0 {
        Seq::empty()
    } else {
        let before = next_key_list(table.drop_last(), seen);
        let keys = table.last().keys;
        if is_strict_prefix(seen, keys) && !before.contains(keys[seen.len() as int]) {
            before.push(keys[seen.len() as int])
        } else {
            before
        }
    }
}

/// The verdict on the keys seen so far: an exact match wins, and the first
/// one in the table at that; failing that, the keys seen may be the beginning
/// of something; failing that too, they are a dead end.
pub open spec fn evaluate(table: Seq<BindingView>, seen: Seq<Key>) -> Evaluation {
    if exists|i: int| is_exact_at(table, seen, i) {
        Evaluation::Full(choose|i: int| is_first_exact(table, seen, i))
    } else if exists|i: int, k: Key| asks_next(table, seen, i, k) {
        Evaluation::Partial(next_key_list(table, seen))
    } else {
        Evaluation::NoMatch
    }
}

/// The state of the keybinding manager at a particular point in time.
#[derive(Debug)]
pub enum PrefixState {
    /// The user has typed something that can't possibly match any key
    /// sequence we're listening for.
    DeadEnd,
    /// The user has typed the beginning of one or more key sequences we're
    /// listening for; these keys may come next.
    Prefix(Vec<Key>),
    /// The user has typed something that perfectly matches the key sequence
    /// of the configuration line at this position.
    Match(usize),
}

impl View for PrefixState {
    type V = Evaluation;

    open spec fn view(&self) -> Evaluation {
        match self {
            PrefixState::DeadEnd => Evaluation::NoMatch,
            PrefixState::Prefix(keys) => Evaluation::Partial(keys@),
            PrefixState::Match(i) => Evaluation::Full(*i as int),
        }
    }
}

/// The key list of `next_key_list` holds exactly the keys of `next_keys`, each once.
pub proof fn lemma_next_key_list(table: Seq<BindingView>, seen: Seq<Key>)
    ensures
        next_key_list(table, seen).no_duplicates(),
        next_key_list(table, seen).to_set() =~= next_keys(table, seen),
    decreases table.len(),
{
    let list = next_key_list(table, seen);
    if table.len() == 0 {
        assert forall|k: Key| !next_keys(table, seen).contains(k) by {}
    } else {
        let front = table.drop_last();
        let before = next_key_list(front, seen);
        lemma_next_key_list(front, seen);
        let last = table.len() - 1;
        assert forall|k: Key| list.contains(k) <==> next_keys(table, seen).contains(k) by {
            if list.contains(k) {
                if before.contains(k) {
                    assert(before.to_set().contains(k));
                    let i = choose|i: int| asks_next(front, seen, i, k);
                    assert(front[i] == table[i]);
                    assert(asks_next(table, seen, i, k));
                } else {
                    let j = choose|j: int| 0 <= j < list.len() && list[j] == k;
                    assert(list =~= before.push(table.last().keys[seen.len() as int]));
                    if j < before.len() {
                        assert(before[j] == k);
                    }
                    assert(asks_next(table, seen, last, k));
                }
            }
            if next_keys(table, seen).contains(k) {
                let i = choose|i: int| asks_next(table, seen, i, k);
                if i < last {
                    assert(front[i] == table[i]);
                    assert(asks_next(front, seen, i, k));
                    assert(before.to_set().contains(k));
                    let j = choose|j: int| 0 <= j < before.len() && before[j] == k;
                    assert(list[j] == k);
                } else {
                    if before.contains(k) {
                        let j = choose|j: int| 0 <= j < before.len() && before[j] == k;
                        assert(list[j] == k);
                    } else {
                        assert(list[before.len() as int] == k);
                    }
                }
            }
        }
    }
}

/// Where some binding has exactly the keys seen, one of them is the first.
pub proof fn lemma_first_exact_exists(table: Seq<BindingView>, seen: Seq<Key>, i: int)
    requires
        is_exact_at(table, seen, i),
    ensures
        exists|c: int| is_first_exact(table, seen, c),
    decreases i,
{
    if exists|j: int| 0 <= j < i && is_exact_at(table, seen, j) {
        let j = choose|j: int| 0 <= j < i && is_exact_at(table, seen, j);
        lemma_first_exact_exists(table, seen, j);
    } else {
        assert(is_first_exact(table, seen, i));
    }
}

/// `seen` is the beginning of `seq`, or all of it.
pub open spec fn is_prefix_or_equal(seen: Seq<Key>, seq: Seq<Key>) -> bool {
    seen.len() <= seq.len() && seq.subrange(0, seen.len() as int) =~= seen
}

/// The keys seen are a dead end exactly when they are neither the beginning
/// of nor equal to the key sequence of any binding.
pub proof fn lemma_dead_end(table: Seq<BindingView>, seen: Seq<Key>)
    ensures
        evaluate(table, seen) is NoMatch <==> forall|i: int|
            0 <= i < table.len() ==> !is_prefix_or_equal(seen, #[trigger] table[i].keys),
{
    if evaluate(table, seen) is NoMatch {
        assert forall|i: int| 0 <= i < table.len() implies !is_prefix_or_equal(
            seen,
            #[trigger] table[i].keys,
        ) by {
            let keys = table[i].keys;
            if is_prefix_or_equal(seen, keys) {
                if seen.len() == keys.len() {
                    assert(keys.subrange(0, seen.len() as int) =~= keys);
                    assert(is_exact_at(table, seen, i));
                } else {
                    assert(asks_next(table, seen, i, keys[seen.len() as int]));
                }
            }
        }
    } else {
        if exists|i: int| is_exact_at(table, seen, i) {
            let i = choose|i: int| is_exact_at(table, seen, i);
            assert(table[i].keys.subrange(0, seen.len() as int) =~= seen);
            assert(is_prefix_or_equal(seen, table[i].keys));
        } else {
            let (i, k) = choose|i: int, k: Key| asks_next(table, seen, i, k);
            assert(is_prefix_or_equal(seen, table[i].keys));
        }
    }
}

/// An exact match always wins: where some binding has exactly the keys
/// seen, the verdict is the first such binding, whatever longer key
/// sequences begin with the same keys.
pub proof fn lemma_exact_match_wins(table: Seq<BindingView>, seen: Seq<Key>, i: int)
    requires
        is_exact_at(table, seen, i),
    ensures
        evaluate(table, seen) matches Evaluation::Full(c) && is_first_exact(table, seen, c) && c
            <= i,
{
    lemma_first_exact_exists(table, seen, i);
}

/// While the keys seen are the beginning of something, the keys that may
/// come next are those that some binding asks for, each listed once, and
/// there is at least one.
pub proof fn lemma_partial_keys(table: Seq<BindingView>, seen: Seq<Key>)
    requires
        evaluate(table, seen) is Partial,
    ensures
        evaluate(table, seen) matches Evaluation::Partial(keys) && keys.no_duplicates()
            && keys.to_set() =~= next_keys(table, seen) && keys.len() > 0,
{
    lemma_next_key_list(table, seen);
    let (i, k) = choose|i: int, k: Key| asks_next(table, seen, i, k);
    assert(next_keys(table, seen).contains(k));
    assert(next_key_list(table, seen).to_set().contains(k));
}

/// With nothing typed yet, and a table that is not empty and whose key
/// sequences each have a key, the verdict is never a match and never a dead
/// end: it is the first keys of all the bindings.
pub proof fn lemma_nothing_seen(table: Seq<BindingView>)
    requires
        table.len() > 0,
        forall|i: int| 0 <= i < table.len() ==> (#[trigger] table[i]).keys.len() >= 1,
    ensures
        evaluate(table, Seq::empty()) == Evaluation::Partial(init_keys(table)),
        forall|k: Key|
            init_keys(table).contains(k) <==> exists|i: int|
                0 <= i < table.len() && (#[trigger] table[i]).keys[0] == k,
{
    let empty = Seq::<Key>::empty();
    assert forall|i: int| 0 <= i < table.len() implies asks_next(
        table,
        empty,
        i,
        (#[trigger] table[i]).keys[0],
    ) by {
        assert(table[i].keys.subrange(0, 0) =~= empty);
    }
    assert(asks_next(table, empty, 0, table[0].keys[0]));
    lemma_next_key_list(table, empty);
    assert forall|k: Key|
        init_keys(table).contains(k) <==> exists|i: int|
            0 <= i < table.len() && (#[trigger] table[i]).keys[0] == k by {
        if init_keys(table).contains(k) {
            assert(init_keys(table).to_set().contains(k));
            let i = choose|i: int| asks_next(table, empty, i, k);
            assert(table[i].keys[0] == k);
        }
        if exists|i: int| 0 <= i < table.len() && (#[trigger] table[i]).keys[0] == k {
            let i = choose|i: int| 0 <= i < table.len() && (#[trigger] table[i]).keys[0] == k;
            assert(asks_next(table, empty, i, k));
            assert(next_keys(table, empty).contains(k));
            assert(init_keys(table).to_set().contains(k));
        }
    }
}

/// The verdict depends on the table and the keys seen and on nothing else:
/// two answers of `get_prefixes` to the same question are the same answer.
pub proof fn lemma_verdict_is_determined(
    table: Seq<BindingView>,
    seen: Seq<Key>,
    first: PrefixState,
    second: PrefixState,
)
    requires
        first@ == evaluate(table, seen),
        second@ == evaluate(table, seen),
    ensures
        first@ == second@,
        first is Match ==> first == second,
        first is DeadEnd ==> first == second,
        first matches PrefixState::Prefix(a) ==> (second matches PrefixState::Prefix(b) && a@
            == b@),
{
}

/// Whether `keys` holds `key`.
fn holds_key(keys: &Vec<Key>, key: Key) -> (r: bool)
    ensures
        r == keys@.contains(key),
{
    let mut i: usize = 0;
    while i < keys.len()
        invariant
            i <= keys@.len(),
            forall|j: int| 0 <= j < i ==> keys@[j] != key,
        decreases keys.len() - i,
    {
        if keys[i] == key {
            return true;
        }
        i += 1;
    }
    false
}

/// Gets the set of all keys that should be grabbed initially, given the
/// configuration: the first key of every key sequence, each once.
pub fn get_init_keys(config: &Config) -> (r: Vec<Key>)
    ensures
        r@ == next_key_list(config@, Seq::empty()),
{
    let mut keys: Vec<Key> = Vec::new();
    let mut i: usize = 0;
    while i < config.commands.len()
        invariant
            i <= config.commands@.len(),
            keys@ == next_key_list(config@.take(i as int), Seq::empty()),
        decreases config.commands.len() - i,
    {
        let line = &config.commands[i];
        proof {
            assert(config@.take(i + 1).drop_last() =~= config@.take(i as int));
            assert(config@.take(i + 1).last().keys == line.keyseq@);
            assert(line.keyseq@.subrange(0, 0) =~= Seq::<Key>::empty());
        }
        if line.keyseq.keys.len() > 0 && !holds_key(&keys, line.keyseq.keys[0]) {
            keys.push(line.keyseq.keys[0]);
        }
        i += 1;
    }
    proof {
        assert(config@.take(i as int) =~= config@);
    }
    keys
}

/// Attempts to determine what the user meant, given that they've typed the
/// keys `seen_keys` and we're listening for the key sequences of `config`.
pub fn get_prefixes(config: &Config, seen_keys: &[Key]) -> (r: PrefixState)
    ensures
        r@ == evaluate(config@, seen_keys@),
{
    let ghost table = config@;
    let ghost seen = seen_keys@;
    let mut keys: Vec<Key> = Vec::new();
    let mut partial = false;
    let mut i: usize = 0;
    while i < config.commands.len()
        invariant
            i <= config.commands@.len(),
            table == config@,
            seen == seen_keys@,
            keys@ == next_key_list(table.take(i as int), seen),
            forall|j: int| 0 <= j < i ==> !is_exact_at(table, seen, j),
            partial <==> exists|j: int, k: Key| j < i && asks_next(table, seen, j, k),
        decreases config.commands.len() - i,
    {
        let line = &config.commands[i];
        proof {
            assert(table.take(i + 1).drop_last() =~= table.take(i as int));
            assert(table.take(i + 1).last().keys == line.keyseq@);
            assert(table[i as int].keys == line.keyseq@);
        }
        match match_keyseq(&line.keyseq, seen_keys) {
            SeqMatch::Mismatch => {},
            SeqMatch::Partial => {
                let next = line.keyseq.keys[seen_keys.len()];
                proof {
                    assert(asks_next(table, seen, i as int, next));
                }
                partial = true;
                if !holds_key(&keys, next) {
                    keys.push(next);
                }
            },
            SeqMatch::Full => {
                proof {
                    assert(is_first_exact(table, seen, i as int));
                    let c = choose|c: int| is_first_exact(table, seen, c);
                    assert(c == i);
                }
                return PrefixState::Match(i);
            },
        }
        i += 1;
    }
    proof {
        assert(table.take(i as int) =~= table);
    }
    if partial {
        PrefixState::Prefix(keys)
    } else {
        PrefixState::DeadEnd
    }
}

/// Where a completed or abandoned attempt leaves the daemon.
pub enum Resolution {
    /// The keys lead nowhere: they are dropped.
    Drop,
    /// These keys are the beginning of something: more are awaited.
    Listen(Seq<Key>),
    /// The command of the binding at this position is to be launched.
    Spawn(int),
}

/// Follows the keys seen to what they finally mean. A binding that maps to
/// another key sequence is followed as though the user had typed that
/// sequence instead, for at most `hops` such steps; one step more and the
/// keys are dropped. With as many hops as there are bindings, every chain
/// that does not run in a circle is followed to its end.
pub open spec fn resolve(table: Seq<BindingView>, seen: Seq<Key>, hops: nat) -> Resolution
    decreases hops,
{
    match evaluate(table, seen) {
        Evaluation::NoMatch => Resolution::Drop,
        Evaluation::Partial(_) => Resolution::Listen(seen),
        Evaluation::Full(i) => match table[i].action {
            ActionView::Bind(_) => Resolution::Spawn(i),
            ActionView::Remap(to) => if hops == 0 {
                Resolution::Drop
            } else {
                resolve(table, to, (hops - 1) as nat)
            },
        },
    }
}

/// The state of the daemon between two key presses.
#[derive(Debug)]
pub enum DaemonState {
    /// No key of a sequence has been typed; the first keys of all bindings are grabbed.
    Idle,
    /// These keys have been typed and begin some binding; the whole keyboard is grabbed.
    Listening(Vec<Key>),
}

/// A daemon state as mathematical data.
pub enum DaemonStateView {
    Idle,
    Listening(Seq<Key>),
}

impl View for DaemonState {
    type V = DaemonStateView;

    open spec fn view(&self) -> DaemonStateView {
        match self {
            DaemonState::Idle => DaemonStateView::Idle,
            DaemonState::Listening(seen) => DaemonStateView::Listening(seen@),
        }
    }
}

/// What the daemon asks of the display connection, and of the process launcher.
#[derive(Debug)]
pub enum Request {
    /// Grab each of these keys on the root window.
    GrabKeys(Vec<Key>),
    /// Release the grab on each of these keys.
    UngrabKeys(Vec<Key>),
    /// Grab the whole keyboard.
    GrabKeyboard,
    /// Release the grab on the whole keyboard.
    UngrabKeyboard,
    /// Launch the command of the configuration line at this position.
    Spawn(usize),
}

/// A request as mathematical data.
pub enum RequestView {
    GrabKeys(Seq<Key>),
    UngrabKeys(Seq<Key>),
    GrabKeyboard,
    UngrabKeyboard,
    Spawn(int),
}

impl View for Request {
    type V = RequestView;

    open spec fn view(&self) -> RequestView {
        match self {
            Request::GrabKeys(keys) => RequestView::GrabKeys(keys@),
            Request::UngrabKeys(keys) => RequestView::UngrabKeys(keys@),
            Request::GrabKeyboard => RequestView::GrabKeyboard,
            Request::UngrabKeyboard => RequestView::UngrabKeyboard,
            Request::Spawn(i) => RequestView::Spawn(*i as int),
        }
    }
}

/// The requests of a list, as mathematical data.
pub open spec fn request_views(requests: Seq<Request>) -> Seq<RequestView> {
    Seq::new(requests.len(), |i: int| requests[i]@)
}

/// The keys grabbed while idle.
pub open spec fn init_keys(table: Seq<BindingView>) -> Seq<Key> {
    next_key_list(table, Seq::empty())
}

/// The requests that end an attempt and bring the daemon back to idle.
pub open spec fn leave_requests(table: Seq<BindingView>, outcome: Resolution) -> Seq<
    RequestView,
> {
    match outcome {
        Resolution::Listen(_) => Seq::empty(),
        Resolution::Spawn(i) => Seq::empty().push(RequestView::UngrabKeyboard).push(
            RequestView::Spawn(i),
        ).push(RequestView::GrabKeys(init_keys(table))),
        Resolution::Drop => Seq::empty().push(RequestView::UngrabKeyboard).push(
            RequestView::GrabKeys(init_keys(table)),
        ),
    }
}

/// The requests that begin an attempt: none while one is under way.
pub open spec fn enter_requests(table: Seq<BindingView>, state: DaemonStateView) -> Seq<
    RequestView,
> {
    match state {
        DaemonStateView::Idle => Seq::empty().push(RequestView::UngrabKeys(init_keys(table))).push(
            RequestView::GrabKeyboard,
        ),
        DaemonStateView::Listening(_) => Seq::empty(),
    }
}

/// The keys seen once `key` has arrived in `state`.
pub open spec fn seen_after(state: DaemonStateView, key: Key) -> Seq<Key> {
    match state {
        DaemonStateView::Idle => Seq::empty().push(key),
        DaemonStateView::Listening(seen) => seen.push(key),
    }
}

/// The state that follows `state` when `key` is pressed.
pub open spec fn next_state(table: Seq<BindingView>, state: DaemonStateView, key: Key)
    -> DaemonStateView {
    match resolve(table, seen_after(state, key), table.len()) {
        Resolution::Listen(seen) => DaemonStateView::Listening(seen),
        _ => DaemonStateView::Idle,
    }
}

/// The requests to carry out, in order, when `key` is pressed in `state`.
pub open spec fn step_requests(table: Seq<BindingView>, state: DaemonStateView, key: Key) -> Seq<
    RequestView,
> {
    enter_requests(table, state) + leave_requests(
        table,
        resolve(table, seen_after(state, key), table.len()),
    )
}

/// The requests that the daemon starts with: the grab of the idle state.
pub open spec fn start_requests(table: Seq<BindingView>) -> Seq<RequestView> {
    Seq::empty().push(RequestView::GrabKeys(init_keys(table)))
}

/// The state of the daemon once the keys have been pressed, one after the
/// other, from the start.
pub open spec fn state_after(table: Seq<BindingView>, presses: Seq<Key>) -> DaemonStateView
    decreases presses.len(),
{
    if presses.len() == 0 {
        DaemonStateView::Idle
    } else {
        next_state(table, state_after(table, presses.drop_last()), presses.last())
    }
}

/// All the requests of a run, in order: those of the start, then those of
/// each key press.
pub open spec fn requests_of_run(table: Seq<BindingView>, presses: Seq<Key>) -> Seq<RequestView>
    decreases presses.len(),
{
    if presses.len() == 0 {
        start_requests(table)
    } else {
        requests_of_run(table, presses.drop_last()) + step_requests(
            table,
            state_after(table, presses.drop_last()),
            presses.last(),
        )
    }
}

/// A copy of `keys`.
fn copy_keys(keys: &Vec<Key>) -> (r: Vec<Key>)
    ensures
        r@ == keys@,
{
    let mut out: Vec<Key> = Vec::new();
    let mut i: usize = 0;
    while i < keys.len()
        invariant
            i <= keys@.len(),
            out@ == keys@.take(i as int),
        decreases keys.len() - i,
    {
        out.push(keys[i]);
        proof {
            assert(keys@.take(i + 1) =~= keys@.take(i as int).push(keys@[i as int]));
        }
        i += 1;
    }
    proof {
        assert(keys@.take(i as int) =~= keys@);
    }
    out
}

/// What `resolve` found, with the keys to go on listening with.
enum Resolved {
    Drop,
    Listen(Vec<Key>),
    Spawn(usize),
}

/// Follows the keys seen through the bindings that map to other key sequences.
fn resolve_keys(config: &Config, keys: Vec<Key>) -> (r: Resolved)
    ensures
        match resolve(config@, keys@, config@.len()) {
            Resolution::Drop => r is Drop,
            Resolution::Listen(keys) => r matches Resolved::Listen(v) && v@ == keys,
            Resolution::Spawn(i) => r matches Resolved::Spawn(j) && j == i,
        },
{
    let ghost start = keys@;
    let mut seen = keys;
    let mut hops: usize = config.commands.len();
    loop
        invariant
            hops <= config@.len(),
            start == keys@,
            resolve(config@, start, config@.len()) == resolve(config@, seen@, hops as nat),
        decreases hops,
    {
        match get_prefixes(config, seen.as_slice()) {
            PrefixState::DeadEnd => {
                return Resolved::Drop;
            },
            PrefixState::Prefix(_) => {
                return Resolved::Listen(seen);
            },
            PrefixState::Match(i) => {
                proof {
                    let e = choose|e: int| is_exact_at(config@, seen@, e);
                    lemma_first_exact_exists(config@, seen@, e);
                    assert(config@[i as int].action == config.commands@[i as int].action@);
                }
                match &config.commands[i].action {
                    Action::Bind { .. } => {
                        return Resolved::Spawn(i);
                    },
                    Action::Remap { to } => {
                        if hops == 0 {
                            return Resolved::Drop;
                        }
                        seen = copy_keys(&to.keys);
                        hops -= 1;
                    },
                }
            },
        }
    }
}

/// One step of the daemon: `key` was pressed while the daemon was in
/// `state`. Returns the state to wait in for the next key press, and the
/// requests to carry out before waiting, in order.
///
/// While idle the first keys of all bindings are grabbed; the first key
/// press trades that grab for one on the whole keyboard, which is held until
/// the keys typed are a complete key sequence or cannot become one. A key
/// that ends an attempt in a dead end is dropped.
pub fn daemon(config: &Config, state: DaemonState, key: Key) -> (r: (DaemonState, Vec<Request>))
    ensures
        r.0@ == next_state(config@, state@, key),
        request_views(r.1@) == step_requests(config@, state@, key),
{
    let mut requests: Vec<Request> = Vec::new();
    let seen = match state {
        DaemonState::Idle => {
            requests.push(Request::UngrabKeys(get_init_keys(config)));
            requests.push(Request::GrabKeyboard);
            let mut seen: Vec<Key> = Vec::new();
            seen.push(key);
            seen
        },
        DaemonState::Listening(seen) => {
            let mut seen = seen;
            seen.push(key);
            seen
        },
    };
    assert(seen@ == seen_after(state@, key));
    assert(request_views(requests@) =~= enter_requests(config@, state@));
    let next = match resolve_keys(config, seen) {
        Resolved::Listen(keys) => DaemonState::Listening(keys),
        Resolved::Spawn(i) => {
            requests.push(Request::UngrabKeyboard);
            requests.push(Request::Spawn(i));
            requests.push(Request::GrabKeys(get_init_keys(config)));
            DaemonState::Idle
        },
        Resolved::Drop => {
            requests.push(Request::UngrabKeyboard);
            requests.push(Request::GrabKeys(get_init_keys(config)));
            DaemonState::Idle
        },
    };
    assert(request_views(requests@) =~= step_requests(config@, state@, key));
    (next, requests)
}

impl DaemonState {
    /// The state in which the daemon starts, with the requests to carry out
    /// before the first key press is awaited. A configuration without
    /// commands leaves nothing to listen for.
    pub fn start(config: &Config) -> (r: Result<(DaemonState, Vec<Request>), AhkdError>)
        ensures
            config@.len() == 0 ==> r matches Err(AhkdError::NoKeysError),
            config@.len() > 0 ==> (r matches Ok((state, requests)) && state@
                == DaemonStateView::Idle && request_views(requests@) == start_requests(config@)),
    {
        if config.commands.len() == 0 {
            return Err(AhkdError::NoKeysError);
        }
        let mut requests: Vec<Request> = Vec::new();
        requests.push(Request::GrabKeys(get_init_keys(config)));
        assert(request_views(requests@) =~= start_requests(config@));
        Ok((DaemonState::Idle, requests))
    }
}

} // verus!
