//! What an engine comes to when every call that it asks for succeeds: all
//! that the object has to attach is attached and pinned, then its maps are
//! pinned, each below the directory of the device and the object.

use crate::bpf::{
    lemma_engine_invariant, lemma_next_attach, lemma_next_pin, object_stem, pin_path, start,
    ActionView, EngineView, Event, ObjectView, Stage,
};
use crate::paths::{
    after_dash, ends_with, file_name, lemma_name_start_is, object_suffix, trimmed_len,
};
use crate::text::lemma_position_of;
use vstd::prelude::*;

verus! {

/// The event answers the action that is due, and reports success: the object
/// was loaded, the probe accepted the device, the attach program gave a link
/// and the link was pinned, the map was attached or pinned.
pub open spec fn grants(v: EngineView, event: Event) -> bool {
    match v.action() {
        ActionView::Load { .. } => event == (Event::Loaded { ok: true }),
        ActionView::Probe => event == (Event::ProbeRan { status: 0, retval: 0 }),
        ActionView::AttachProgram { .. } => match event {
            Event::ProgramAttached { status, retval, pinned } => status == 0 && retval >= 0
                && pinned,
            _ => false,
        },
        ActionView::AttachMap { .. } => event == (Event::MapAttached { pinned: true }),
        ActionView::PinMap { .. } => event == (Event::MapPinned { ok: true }),
        ActionView::Rollback { .. } => false,
        ActionView::Done => false,
    }
}

/// The state after the events, one after the other.
pub open spec fn run(v: EngineView, events: Seq<Event>) -> EngineView
    decreases events.len(),
{
    if events.len() == 0 {
        v
    } else {
        run(v.after(events[0]), events.skip(1))
    }
}

/// Each of the events grants what is due when it comes.
pub open spec fn all_granted(v: EngineView, events: Seq<Event>) -> bool
    decreases events.len(),
{
    if events.len() == 0 {
        true
    } else {
        grants(v, events[0]) && all_granted(v.after(events[0]), events.skip(1))
    }
}

/// Where the items to attach from `from` on are pinned: each tracing program,
/// or each struct-ops map, under its name below `dir`.
pub open spec fn attach_pins(o: ObjectView, dir: Seq<char>, from: int) -> Seq<Seq<char>>
    decreases o.attach_len() - from,
{
    if from < 0 || from >= o.attach_len() {
        Seq::empty()
    } else if o.attaches(from) {
        seq![pin_path(dir, o.attach_name(from))] + attach_pins(o, dir, from + 1)
    } else {
        attach_pins(o, dir, from + 1)
    }
}

/// Where the maps from `from` on that are pinned beside the programs are
/// pinned: each under its name below `dir`.
pub open spec fn map_pins(o: ObjectView, dir: Seq<char>, from: int) -> Seq<Seq<char>>
    decreases o.maps.len() - from,
{
    if from < 0 || from >= o.maps.len() {
        Seq::empty()
    } else if o.pins(from) {
        seq![pin_path(dir, o.maps[from].0)] + map_pins(o, dir, from + 1)
    } else {
        map_pins(o, dir, from + 1)
    }
}

/// Nothing is pinned for what is passed over on the way to the next item to
/// attach.
proof fn lemma_attach_pins_skip(o: ObjectView, dir: Seq<char>, from: int)
    requires
        0 <= from,
    ensures
        attach_pins(o, dir, from) == attach_pins(o, dir, o.next_attach(from)),
    decreases o.attach_len() - from,
{
    if from < o.attach_len() && !o.attaches(from) {
        lemma_attach_pins_skip(o, dir, from + 1);
    }
}

/// Nothing is pinned for the maps that are passed over on the way to the next
/// map to pin.
proof fn lemma_map_pins_skip(o: ObjectView, dir: Seq<char>, from: int)
    requires
        0 <= from,
    ensures
        map_pins(o, dir, from) == map_pins(o, dir, o.next_pin(from)),
    decreases o.maps.len() - from,
{
    if from < o.maps.len() && !o.pins(from) {
        lemma_map_pins_skip(o, dir, from + 1);
    }
}

/// Every item to attach has its pin among the pins.
pub proof fn lemma_attach_pins_hold(o: ObjectView, dir: Seq<char>, from: int, i: int)
    requires
        0 <= from <= i,
        o.attaches(i),
    ensures
        attach_pins(o, dir, from).contains(pin_path(dir, o.attach_name(i))),
    decreases i - from,
{
    let all = attach_pins(o, dir, from);
    let wanted = pin_path(dir, o.attach_name(i));
    if from == i {
        assert(all[0] == wanted);
    } else {
        lemma_attach_pins_hold(o, dir, from + 1, i);
        let rest = attach_pins(o, dir, from + 1);
        let k = choose|k: int| 0 <= k < rest.len() && rest[k] == wanted;
        if o.attaches(from) {
            assert(all[k + 1] == rest[k]);
        }
    }
}

/// What is still to be pinned in a state on the way to the end.
pub open spec fn pins_ahead(v: EngineView) -> Seq<Seq<char>> {
    match v.stage {
        Stage::Opened => attach_pins(v.object, v.dir, 0) + map_pins(v.object, v.dir, 0),
        Stage::Probed => attach_pins(v.object, v.dir, v.cursor) + map_pins(v.object, v.dir, 0),
        Stage::Attached => map_pins(v.object, v.dir, v.cursor),
        Stage::Pinned => Seq::empty(),
        Stage::Failed(_) => Seq::empty(),
    }
}

/// The engine has not failed, and has something to attach where the
/// attaching is still to come.
pub open spec fn on_the_way(v: EngineView) -> bool {
    &&& !(v.stage is Failed)
    &&& v.stage == Stage::Opened ==> v.object.next_attach(0) < v.object.attach_len()
}

/// One granted event takes the engine one step on: it has not failed, and
/// what is pinned and what is still to be pinned together stay the same.
proof fn lemma_granted_step(v: EngineView, event: Event)
    requires
        v.inv(),
        on_the_way(v),
        grants(v, event),
    ensures
        v.after(event).inv(),
        on_the_way(v.after(event)),
        v.after(event).object == v.object,
        v.after(event).dir == v.dir,
        v.after(event).pinned + pins_ahead(v.after(event)) == v.pinned + pins_ahead(v),
{
    let o = v.object;
    let w = v.after(event);
    lemma_engine_invariant(v, event);
    lemma_next_attach(o, 0);
    lemma_next_pin(o, 0);
    lemma_attach_pins_skip(o, v.dir, 0);
    lemma_map_pins_skip(o, v.dir, 0);
    match v.stage {
        Stage::Opened => {
            assert(w.pinned =~= v.pinned);
            assert(w.pinned + pins_ahead(w) =~= v.pinned + pins_ahead(v));
        },
        Stage::Probed => {
            let c = v.cursor;
            lemma_next_attach(o, c + 1);
            lemma_attach_pins_skip(o, v.dir, c + 1);
            let next = o.next_attach(c + 1);
            let pin = pin_path(v.dir, o.attach_name(c));
            assert(attach_pins(o, v.dir, c) == seq![pin] + attach_pins(o, v.dir, c + 1));
            assert(w.pinned =~= v.pinned.push(pin));
            if next >= o.attach_len() {
                assert(attach_pins(o, v.dir, next) =~= Seq::<Seq<char>>::empty());
                if o.next_pin(0) >= o.maps.len() {
                    assert(map_pins(o, v.dir, o.next_pin(0)) =~= Seq::<Seq<char>>::empty());
                }
            }
            assert(w.pinned + pins_ahead(w) =~= v.pinned + pins_ahead(v));
        },
        Stage::Attached => {
            let c = v.cursor;
            lemma_next_pin(o, c + 1);
            lemma_map_pins_skip(o, v.dir, c + 1);
            let next = o.next_pin(c + 1);
            let pin = pin_path(v.dir, o.maps[c].0);
            assert(map_pins(o, v.dir, c) == seq![pin] + map_pins(o, v.dir, c + 1));
            assert(w.pinned =~= v.pinned.push(pin));
            if next >= o.maps.len() {
                assert(map_pins(o, v.dir, next) =~= Seq::<Seq<char>>::empty());
            }
            assert(w.pinned + pins_ahead(w) =~= v.pinned + pins_ahead(v));
        },
        _ => {},
    }
}

/// A run of granted events after which nothing is due has pinned all that
/// was still to be pinned.
proof fn lemma_granted_run(v: EngineView, events: Seq<Event>)
    requires
        v.inv(),
        on_the_way(v),
        all_granted(v, events),
        run(v, events).action() == ActionView::Done,
    ensures
        run(v, events).stage == Stage::Pinned,
        run(v, events).pinned == v.pinned + pins_ahead(v),
        run(v, events).object == v.object,
        run(v, events).dir == v.dir,
    decreases events.len(),
{
    if events.len() == 0 {
        assert(v.pinned + pins_ahead(v) =~= v.pinned);
    } else {
        lemma_granted_step(v, events[0]);
        lemma_granted_run(v.after(events[0]), events.skip(1));
    }
}

/// When every call that an engine asks for succeeds, and nothing is due any
/// more, the object is attached and pinned: the engine is at `Pinned`, and
/// what is pinned is, in this order, each tracing program (or each struct-ops
/// map) and then each map that is pinned beside them, each under its name
/// below the directory of the device and the object. This holds of an object
/// with any number of programs and maps, as long as it has one to attach.
pub proof fn lemma_success_pins_everything(
    hid: u32,
    dir: Seq<char>,
    o: ObjectView,
    events: Seq<Event>,
)
    requires
        o.next_attach(0) < o.attach_len(),
        all_granted(start(hid, dir, Some(o)), events),
        run(start(hid, dir, Some(o)), events).action() == ActionView::Done,
    ensures
        run(start(hid, dir, Some(o)), events).stage == Stage::Pinned,
        run(start(hid, dir, Some(o)), events).pinned == attach_pins(o, dir, 0) + map_pins(
            o,
            dir,
            0,
        ),
        run(start(hid, dir, Some(o)), events).result() == Some(
            Ok::<Seq<Seq<char>>, crate::bpf::AttachError>(
                attach_pins(o, dir, 0) + map_pins(o, dir, 0),
            ),
        ),
        forall|i: int|
            o.attaches(i) ==> run(start(hid, dir, Some(o)), events).pinned.contains(
                #[trigger] pin_path(dir, o.attach_name(i)),
            ),
{
    let v = start(hid, dir, Some(o));
    lemma_granted_run(v, events);
    let all = attach_pins(o, dir, 0) + map_pins(o, dir, 0);
    assert(v.pinned + pins_ahead(v) =~= all);
    assert forall|i: int| o.attaches(i) implies all.contains(
        #[trigger] pin_path(dir, o.attach_name(i)),
    ) by {
        lemma_attach_pins_hold(o, dir, 0, i);
        let first = attach_pins(o, dir, 0);
        let k = choose|k: int| 0 <= k < first.len() && first[k] == pin_path(dir, o.attach_name(i));
        assert(all[k] == first[k]);
    }
}

/// An event that grants what is due.
pub open spec fn granting(v: EngineView) -> Event {
    match v.action() {
        ActionView::Load { .. } => Event::Loaded { ok: true },
        ActionView::Probe => Event::ProbeRan { status: 0, retval: 0 },
        ActionView::AttachProgram { .. } => Event::ProgramAttached {
            status: 0,
            retval: 1,
            pinned: true,
        },
        ActionView::AttachMap { .. } => Event::MapAttached { pinned: true },
        ActionView::PinMap { .. } => Event::MapPinned { ok: true },
        ActionView::Rollback { .. } => Event::RolledBack,
        ActionView::Done => Event::RolledBack,
    }
}

/// Granting events, one for each action that is due, until nothing is due or
/// `n` of them are given.
pub open spec fn granting_events(v: EngineView, n: nat) -> Seq<Event>
    decreases n,
{
    if n == 0 || v.action() == ActionView::Done {
        Seq::empty()
    } else {
        seq![granting(v)] + granting_events(v.after(granting(v)), (n - 1) as nat)
    }
}

/// A bound on the number of actions that are still due.
pub open spec fn steps_left(v: EngineView) -> int {
    match v.stage {
        Stage::Opened => v.object.attach_len() + v.object.maps.len() + (if v.loaded {
            2int
        } else {
            3int
        }),
        Stage::Probed => v.object.attach_len() - v.cursor + v.object.maps.len() + 1,
        Stage::Attached => v.object.maps.len() - v.cursor,
        Stage::Pinned => 0,
        Stage::Failed(_) => 0,
    }
}

/// Granting every action that is due brings the engine to its end within
/// `steps_left` events.
proof fn lemma_granting_ends(v: EngineView, n: nat)
    requires
        v.inv(),
        on_the_way(v),
        n >= steps_left(v),
    ensures
        all_granted(v, granting_events(v, n)),
        run(v, granting_events(v, n)).action() == ActionView::Done,
        granting_events(v, n).len() <= n,
    decreases n,
{
    let o = v.object;
    if v.action() != ActionView::Done {
        let e = granting(v);
        let w = v.after(e);
        lemma_next_attach(o, 0);
        lemma_next_pin(o, 0);
        lemma_next_attach(o, v.cursor + 1);
        lemma_next_pin(o, v.cursor + 1);
        assert(grants(v, e));
        lemma_granted_step(v, e);
        assert(steps_left(v) >= 1);
        assert(steps_left(w) < steps_left(v));
        lemma_granting_ends(w, (n - 1) as nat);
        let events = granting_events(v, n);
        assert(events[0] == e);
        assert(events.skip(1) =~= granting_events(w, (n - 1) as nat));
    }
}

/// There is a run in which every call succeeds, for every object that has
/// something to attach: it takes no more events than the object has programs
/// and maps, and three.
pub proof fn lemma_a_granted_run_exists(hid: u32, dir: Seq<char>, o: ObjectView)
    requires
        o.next_attach(0) < o.attach_len(),
    ensures
        exists|events: Seq<Event>|
            #[trigger] all_granted(start(hid, dir, Some(o)), events) && run(
                start(hid, dir, Some(o)),
                events,
            ).action() == ActionView::Done && events.len() <= o.attach_len() + o.maps.len() + 3,
{
    let v = start(hid, dir, Some(o));
    let n = (o.attach_len() + o.maps.len() + 3) as nat;
    lemma_granting_ends(v, n);
    assert(all_granted(v, granting_events(v, n)));
}

/// The text holds the character nowhere.
pub open spec fn lacks(s: Seq<char>, c: char) -> bool {
    forall|i: int| 0 <= i < s.len() ==> #[trigger] s[i] != c
}

/// The path of an object file with a priority: the file `<priority>-<stem>.bpf.o`
/// in the directory.
pub open spec fn object_path(dir: Seq<char>, priority: Seq<char>, stem: Seq<char>) -> Seq<char> {
    dir + seq!['/'] + priority + seq!['-'] + stem + object_suffix()
}

/// An object file `<priority>-<stem>.bpf.o` is pinned under its stem, in
/// whatever directory it lies: so `0010-foo.bpf.o` is pinned under `foo`.
pub proof fn lemma_object_stem(dir: Seq<char>, priority: Seq<char>, stem: Seq<char>)
    requires
        lacks(priority, '/'),
        lacks(priority, '-'),
        lacks(stem, '/'),
    ensures
        object_stem(object_path(dir, priority, stem)) == stem,
{
    let path = object_path(dir, priority, stem);
    let suffix = object_suffix();
    let name = priority + seq!['-'] + stem + suffix;
    let start_of_name = dir.len() + 1;
    assert(path.len() == start_of_name + name.len());
    assert(path.last() == 'o');
    assert(path[path.len() - 2] == '.');
    assert(trimmed_len(path) == path.len());
    assert(path.take(path.len() as int) =~= path);
    assert forall|k: int| start_of_name <= k < path.len() implies path[k] != '/' by {
        let j = k - start_of_name;
        assert(path[k] == name[j]);
        if j < priority.len() {
            assert(name[j] == priority[j]);
        } else if j == priority.len() {
        } else if j < priority.len() + 1 + stem.len() {
            assert(name[j] == stem[j - priority.len() - 1]);
        } else {
            assert(name[j] == suffix[j - priority.len() - 1 - stem.len()]);
        }
    }
    assert(path[start_of_name - 1] == '/');
    lemma_name_start_is(path, start_of_name as int);
    assert(file_name(path) =~= name);
    assert forall|k: int| 0 <= k < priority.len() implies name[k] != '-' by {
        assert(name[k] == priority[k]);
    }
    assert(name[priority.len() as int] == '-');
    lemma_position_of(name, '-', priority.len() as int);
    let tail = stem + suffix;
    assert(after_dash(name) =~= tail);
    assert(tail.skip(tail.len() - 6) =~= suffix);
    assert(ends_with(tail, suffix));
    assert(tail.take(tail.len() - 6) =~= stem);
}

} // verus!
