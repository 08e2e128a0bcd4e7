//! The table of the links that are in use, each under its name.
//!
//! No two links of the table share a name. The events of a link that the
//! table holds are moved to the table as they arise, so that none is lost
//! when a link leaves it.

use vstd::prelude::*;
use vstd::string::StringExecFns;
use crate::error::{CommError, CommErrorView};
use crate::event::{events_view, Action, ActionView, Event, EventView, LinkEvent, LinkEventView};
use crate::exchange::{exchange_step, ExchangeView};
use crate::path::PathTransfer;
use crate::port::{BoatPort, PortView};

verus! {

/// The links that are in use.
#[derive(Debug)]
pub struct ConnectedBoats {
    boats: Vec<BoatPort>,
    events: Vec<LinkEvent>,
}

/// What the table holds.
pub struct TableView {
    /// The links, in the order in which they came in.
    pub ports: Seq<PortView>,
    /// The events that wait to be forwarded.
    pub events: Seq<LinkEventView>,
}

/// The links of a list, as plain values.
pub open spec fn ports_view(ports: Seq<BoatPort>) -> Seq<PortView> {
    ports.map_values(|p: BoatPort| p@)
}

impl View for ConnectedBoats {
    type V = TableView;

    closed spec fn view(&self) -> TableView {
        TableView { ports: ports_view(self.boats@), events: events_view(self.events@) }
    }
}

/// No two links share a name, and no link holds events of its own.
pub open spec fn well_kept(ports: Seq<PortView>) -> bool {
    &&& forall|i: int, j: int|
        0 <= i < ports.len() && 0 <= j < ports.len() && i != j ==> (#[trigger] ports[i]).name != (
        #[trigger] ports[j]).name
    &&& forall|i: int| 0 <= i < ports.len() ==> (#[trigger] ports[i]).events.len() == 0
}

/// The place of the link of the given name among `ports`.
pub open spec fn position(ports: Seq<PortView>, name: Seq<char>) -> Option<int>
    decreases ports.len(),
{
    if ports.len() == 0 {
        None
    } else {
        match position(ports.drop_last(), name) {
            Some(i) => Some(i),
            None => if ports.last().name == name {
                Some(ports.len() - 1)
            } else {
                None
            },
        }
    }
}

/// The names of the links, in their order.
pub open spec fn names(ports: Seq<PortView>) -> Seq<Seq<char>> {
    ports.map_values(|p: PortView| p.name)
}

/// The texts of a list, as plain values.
pub open spec fn texts(list: Seq<String>) -> Seq<Seq<char>> {
    list.map_values(|s: String| s@)
}

/// A place that `position` gives holds the name asked for, and no place
/// before it does; without a place, no link has the name.
pub proof fn lemma_position(ports: Seq<PortView>, name: Seq<char>)
    ensures
        match position(ports, name) {
            Some(i) => 0 <= i < ports.len() && ports[i].name == name && forall|j: int|
                0 <= j < i ==> (#[trigger] ports[j]).name != name,
            None => forall|j: int| 0 <= j < ports.len() ==> (#[trigger] ports[j]).name != name,
        },
    decreases ports.len(),
{
    if ports.len() > 0 {
        lemma_position(ports.drop_last(), name);
        assert forall|j: int| 0 <= j < ports.len() - 1 implies ports[j] == ports.drop_last()[j] by {}
    }
}

/// The first place that holds a name is its position.
pub proof fn lemma_position_found(ports: Seq<PortView>, name: Seq<char>, i: int)
    requires
        0 <= i < ports.len(),
        ports[i].name == name,
        forall|j: int| 0 <= j < i ==> (#[trigger] ports[j]).name != name,
    ensures
        position(ports, name) == Some(i),
{
    lemma_position(ports, name);
}

/// A name that no link has is at no position.
pub proof fn lemma_position_absent(ports: Seq<PortView>, name: Seq<char>)
    requires
        forall|j: int| 0 <= j < ports.len() ==> (#[trigger] ports[j]).name != name,
    ensures
        position(ports, name) is None,
{
    lemma_position(ports, name);
}

/// Whether a link is up, as a value.
pub open spec fn is_up() -> spec_fn(PortView) -> bool {
    |p: PortView| p.connected
}

/// Whether no link of `ports` has a name, as a value.
pub open spec fn is_unknown(ports: Seq<PortView>) -> spec_fn(Seq<char>) -> bool {
    |name: Seq<char>| position(ports, name) is None
}

/// The table after a link was handed to it at the end of a handshake.
pub open spec fn installed_table(table: TableView, port: PortView) -> TableView {
    let events = table.events + port.events;
    let clean = PortView { events: Seq::empty(), ..port };
    if !port.connected {
        TableView { events, ..table }
    } else {
        match position(table.ports, port.name) {
            Some(i) => TableView { ports: table.ports.update(i, clean), events },
            None => TableView { ports: table.ports.push(clean), events },
        }
    }
}

/// The table after the links of a list were handed to it one after the
/// other.
pub open spec fn installed_all(table: TableView, links: Seq<PortView>) -> TableView
    decreases links.len(),
{
    if links.len() == 0 {
        table
    } else {
        installed_all(installed_table(table, links[0]), links.drop_first())
    }
}

/// Once a link has left a well-kept table, no link of the table has its
/// name.
pub proof fn lemma_removed_name_absent(ports: Seq<PortView>, i: int)
    requires
        well_kept(ports),
        0 <= i < ports.len(),
    ensures
        position(ports.remove(i), ports[i].name) is None,
        well_kept(ports.remove(i)),
{
    let rest = ports.remove(i);
    assert forall|j: int| 0 <= j < rest.len() implies (#[trigger] rest[j]).name != ports[i].name by {
        if j < i {
            assert(rest[j] == ports[j]);
        } else {
            assert(rest[j] == ports[j + 1]);
        }
    }
    lemma_position_absent(rest, ports[i].name);
    assert forall|a: int, b: int|
        0 <= a < rest.len() && 0 <= b < rest.len() && a != b implies (#[trigger] rest[a]).name != (
    #[trigger] rest[b]).name by {
        let a2 = if a < i { a } else { a + 1 };
        let b2 = if b < i { b } else { b + 1 };
        assert(rest[a] == ports[a2]);
        assert(rest[b] == ports[b2]);
    }
    assert forall|a: int| 0 <= a < rest.len() implies (#[trigger] rest[a]).events.len() == 0 by {
        let a2 = if a < i { a } else { a + 1 };
        assert(rest[a] == ports[a2]);
    }
}

/// What is left of a well-kept table when some links are dropped is well
/// kept.
pub proof fn lemma_filter_well_kept(ports: Seq<PortView>, pred: spec_fn(PortView) -> bool)
    requires
        well_kept(ports),
    ensures
        well_kept(ports.filter(pred)),
    decreases ports.len(),
{
    reveal(Seq::filter);
    if ports.len() > 0 {
        let rest = ports.drop_last();
        let last = ports.last();
        assert forall|j: int| 0 <= j < rest.len() implies rest[j] == ports[j] by {}
        assert(well_kept(rest)) by {
            assert forall|a: int, b: int|
                0 <= a < rest.len() && 0 <= b < rest.len() && a != b implies (
            #[trigger] rest[a]).name != (#[trigger] rest[b]).name by {
                assert(rest[a] == ports[a]);
                assert(rest[b] == ports[b]);
            }
            assert forall|a: int| 0 <= a < rest.len() implies (#[trigger] rest[a]).events.len()
                == 0 by {
                assert(rest[a] == ports[a]);
            }
        }
        lemma_filter_well_kept(rest, pred);
        let kept = rest.filter(pred);
        if pred(last) {
            let all = kept.push(last);
            assert forall|a: int| 0 <= a < kept.len() implies (#[trigger] kept[a]).name
                != last.name by {
                assert(kept.contains(kept[a]));
                rest.lemma_filter_contains_rev(pred, kept[a]);
                let j = choose|j: int| 0 <= j < rest.len() && rest[j] == kept[a];
                assert(ports[j] == kept[a]);
                assert(ports[ports.len() - 1] == last);
            }
            assert forall|a: int, b: int|
                0 <= a < all.len() && 0 <= b < all.len() && a != b implies (#[trigger] all[a]).name
                != (#[trigger] all[b]).name by {
                if a < kept.len() && b < kept.len() {
                    assert(all[a] == kept[a]);
                    assert(all[b] == kept[b]);
                } else if a < kept.len() {
                    assert(all[a] == kept[a]);
                } else {
                    assert(all[b] == kept[b]);
                }
            }
            assert forall|a: int| 0 <= a < all.len() implies (#[trigger] all[a]).events.len()
                == 0 by {
                if a < kept.len() {
                    assert(all[a] == kept[a]);
                } else {
                    assert(all[a] == ports[ports.len() - 1]);
                }
            }
        }
    }
}

/// The table after the link at place `i` has become `port`: the events that
/// the link holds move to the table.
pub open spec fn put(table: TableView, i: int, port: PortView) -> TableView {
    TableView {
        ports: table.ports.update(i, PortView { events: Seq::empty(), ..port }),
        events: table.events + port.events,
    }
}

/// The table after the link at place `i`, which has become `port`, has left
/// it: the events that the link holds move to the table.
pub open spec fn retired(table: TableView, i: int, port: PortView) -> TableView {
    TableView { ports: table.ports.remove(i), events: table.events + port.events }
}

/// One step of the transfer of a path over the link of the given name.
/// Without such a link the transfer ends at once; otherwise the step is that
/// of the transfer on that link.
pub open spec fn routed(x: ExchangeView, table: TableView, name: Seq<char>, event: EventView) -> (
    ExchangeView,
    TableView,
    ActionView<Result<(), CommErrorView>>,
) {
    match position(table.ports, name) {
        None => (x, table, ActionView::Finished(Err(CommErrorView::NotFound(name)))),
        Some(i) => {
            let (next, link, action) = exchange_step(x, table.ports[i], event);
            (next, put(table, i, link), action)
        },
    }
}

impl ConnectedBoats {
    #[verifier::type_invariant]
    spec fn kept(self) -> bool {
        well_kept(ports_view(self.boats@))
    }

    /// A table without links.
    pub fn new() -> (table: ConnectedBoats)
        ensures
            table@ == (TableView { ports: Seq::empty(), events: Seq::empty() }),
    {
        let table = ConnectedBoats { boats: Vec::new(), events: Vec::new() };
        proof {
            assert(table@.ports =~= Seq::empty());
            assert(table@.events =~= Seq::empty());
        }
        table
    }

    /// The number of links.
    pub fn len(&self) -> (n: usize)
        ensures
            n == self@.ports.len(),
            well_kept(self@.ports),
    {
        proof {
            use_type_invariant(self);
        }
        self.boats.len()
    }

    /// The place of the link of the given name.
    pub(crate) fn find(&self, name: &String) -> (place: Option<usize>)
        ensures
            match place {
                Some(i) => position(self@.ports, name@) == Some(i as int) && i < self@.ports.len(),
                None => position(self@.ports, name@) is None,
            },
            well_kept(self@.ports),
    {
        proof {
            use_type_invariant(self);
        }
        let mut i: usize = 0;
        while i < self.boats.len()
            invariant
                i <= self.boats.len(),
                well_kept(self@.ports),
                forall|j: int| 0 <= j < i ==> (#[trigger] self@.ports[j]).name != name@,
            decreases self.boats.len() - i,
        {
            if self.boats[i].has_name(name) {
                proof {
                    lemma_position_found(self@.ports, name@, i as int);
                }
                return Some(i);
            }
            i = i + 1;
        }
        proof {
            lemma_position_absent(self@.ports, name@);
        }
        None
    }

    /// Whether the table holds a link of the given name.
    pub fn contains_key(&self, name: &str) -> (held: bool)
        ensures
            held == (position(self@.ports, name@) is Some),
    {
        let name = String::from_str(name);
        self.find(&name).is_some()
    }

    /// Whether the link of the given name is up; nothing when the table
    /// holds no such link.
    pub fn connected(&self, name: &str) -> (up: Option<bool>)
        ensures
            up == match position(self@.ports, name@) {
                Some(i) => Some(self@.ports[i].connected),
                None => None,
            },
    {
        let name = String::from_str(name);
        match self.find(&name) {
            Some(i) => Some(self.boats[i].connected()),
            None => None,
        }
    }

    /// The names of the links, in the order in which they came in. No name
    /// occurs twice.
    pub fn keys(&self) -> (list: Vec<String>)
        ensures
            texts(list@) == names(self@.ports),
            forall|i: int, j: int|
                0 <= i < list.len() && 0 <= j < list.len() && i != j ==> (#[trigger] list[i])@ != (
                #[trigger] list[j])@,
    {
        proof {
            use_type_invariant(self);
        }
        let mut list: Vec<String> = Vec::new();
        let mut i: usize = 0;
        while i < self.boats.len()
            invariant
                i <= self.boats.len(),
                list.len() == i,
                forall|j: int| 0 <= j < i ==> (#[trigger] list[j])@ == self@.ports[j].name,
            decreases self.boats.len() - i,
        {
            list.push(String::from_str(self.boats[i].name()));
            i = i + 1;
        }
        proof {
            assert(texts(list@) =~= names(self@.ports));
            assert forall|i: int, j: int|
                0 <= i < list.len() && 0 <= j < list.len() && i != j implies (#[trigger] list[i])@ != (
            #[trigger] list[j])@ by {
                assert(self@.ports[i].name != self@.ports[j].name);
            }
        }
        list
    }

    /// Takes the link at place `i` out of the table.
    pub(crate) fn detach(&mut self, i: usize) -> (port: BoatPort)
        requires
            i < old(self)@.ports.len(),
        ensures
            port@ == old(self)@.ports[i as int],
            final(self)@ == (TableView { ports: old(self)@.ports.remove(i as int), ..old(self)@ }),
            well_kept(old(self)@.ports),
    {
        proof {
            use_type_invariant(&*self);
        }
        let mut boats: Vec<BoatPort> = Vec::new();
        let ghost before = ports_view(self.boats@);
        std::mem::swap(&mut boats, &mut self.boats);
        let port = boats.remove(i);
        proof {
            assert(ports_view(boats@) =~= before.remove(i as int));
        }
        self.boats = boats;
        port
    }

    /// Puts a link into the table at place `i`, and moves the events that
    /// it holds to the table.
    pub(crate) fn attach(&mut self, i: usize, port: BoatPort)
        requires
            i <= old(self)@.ports.len(),
            position(old(self)@.ports, port@.name) is None,
        ensures
            final(self)@ == (TableView {
                ports: old(self)@.ports.insert(i as int, PortView { events: Seq::empty(), ..port@ }),
                events: old(self)@.events + port@.events,
            }),
    {
        proof {
            use_type_invariant(&*self);
            lemma_position(old(self)@.ports, port@.name);
        }
        let mut port = port;
        self.adopt_events(&mut port);
        let mut boats: Vec<BoatPort> = Vec::new();
        let ghost before = ports_view(self.boats@);
        std::mem::swap(&mut boats, &mut self.boats);
        boats.insert(i, port);
        proof {
            assert(ports_view(boats@) =~= before.insert(i as int, port@));
        }
        self.boats = boats;
    }

    /// Moves the events that a link holds to the table.
    pub(crate) fn adopt_events(&mut self, port: &mut BoatPort)
        ensures
            final(self)@ == (TableView {
                events: old(self)@.events + old(port)@.events,
                ..old(self)@
            }),
            final(port)@ == (PortView { events: Seq::empty(), ..old(port)@ }),
    {
        proof {
            use_type_invariant(&*self);
        }
        let mut fresh = port.take_events();
        let mut events: Vec<LinkEvent> = Vec::new();
        std::mem::swap(&mut events, &mut self.events);
        events.append(&mut fresh);
        proof {
            assert(events_view(events@) =~= old(self)@.events + old(port)@.events);
        }
        self.events = events;
    }

    /// Whether the link at place `i` is up.
    pub(crate) fn up_at(&self, i: usize) -> (up: bool)
        requires
            i < self@.ports.len(),
        ensures
            up == self@.ports[i as int].connected,
    {
        self.boats[i].connected()
    }

    /// Puts back a link that was taken out of place `i`.
    pub(crate) fn restore(&mut self, i: usize, port: BoatPort, Ghost(before): Ghost<TableView>)
        requires
            well_kept(before.ports),
            0 <= i < before.ports.len(),
            old(self)@ == (TableView { ports: before.ports.remove(i as int), ..before }),
            port@.name == before.ports[i as int].name,
        ensures
            final(self)@ == put(before, i as int, port@),
    {
        proof {
            lemma_removed_name_absent(before.ports, i as int);
            assert(before.ports.remove(i as int).insert(
                i as int,
                PortView { events: Seq::empty(), ..port@ },
            ) =~= before.ports.update(i as int, PortView { events: Seq::empty(), ..port@ }));
        }
        self.attach(i, port);
    }

    /// Takes a link into the table once its handshake has ended. A link
    /// that is down is not taken in. A link that is up takes the place of
    /// the link of its name, or the last place when the table holds none.
    /// Either way the events that it holds move to the table. The result
    /// says whether the link is now in the table, so that it needs a
    /// monitor.
    pub fn install(&mut self, port: BoatPort) -> (installed: bool)
        ensures
            final(self)@ == installed_table(old(self)@, port@),
            installed == port@.connected,
            well_kept(final(self)@.ports),
    {
        let mut port = port;
        if !port.connected() {
            self.adopt_events(&mut port);
            proof {
                use_type_invariant(&*self);
            }
            return false;
        }
        let name = String::from_str(port.name());
        match self.find(&name) {
            Some(i) => {
                let _ = self.detach(i);
                proof {
                    lemma_position(old(self)@.ports, port@.name);
                    lemma_removed_name_absent(old(self)@.ports, i as int);
                    assert(old(self)@.ports.remove(i as int).insert(
                        i as int,
                        PortView { events: Seq::empty(), ..port@ },
                    ) =~= old(self)@.ports.update(
                        i as int,
                        PortView { events: Seq::empty(), ..port@ },
                    ));
                }
                self.attach(i, port);
            },
            None => {
                let end = self.len();
                proof {
                    assert(old(self)@.ports.insert(
                        end as int,
                        PortView { events: Seq::empty(), ..port@ },
                    ) =~= old(self)@.ports.push(PortView { events: Seq::empty(), ..port@ }));
                }
                self.attach(end, port);
            },
        }
        proof {
            use_type_invariant(&*self);
        }
        true
    }

    /// Drops the links that are down.
    pub fn purge(&mut self)
        ensures
            final(self)@ == (TableView { ports: old(self)@.ports.filter(is_up()), ..old(self)@ }),
            well_kept(final(self)@.ports),
    {
        proof {
            use_type_invariant(&*self);
        }
        let mut boats: Vec<BoatPort> = Vec::new();
        let ghost before = ports_view(self.boats@);
        std::mem::swap(&mut boats, &mut self.boats);
        let mut kept: Vec<BoatPort> = Vec::new();
        proof {
            assert(ports_view(kept@) + ports_view(boats@).filter(is_up()) =~= before.filter(is_up()));
        }
        while boats.len() > 0
            invariant
                ports_view(kept@) + ports_view(boats@).filter(is_up()) == before.filter(is_up()),
            decreases boats.len(),
        {
            let ghost rest = ports_view(boats@);
            let port = boats.remove(0);
            proof {
                assert(ports_view(boats@) =~= rest.drop_first());
                assert(rest =~= seq![rest[0]] + rest.drop_first());
                rest.drop_first().lemma_filter_prepend(rest[0], is_up());
            }
            if port.connected() {
                kept.push(port);
                proof {
                    let old_kept = ports_view(kept@).drop_last();
                    assert(ports_view(kept@) =~= old_kept + seq![rest[0]]);
                    assert(ports_view(kept@) + ports_view(boats@).filter(is_up()) =~= old_kept + (
                    seq![rest[0]] + rest.drop_first().filter(is_up())));
                }
            }
        }
        proof {
            reveal(Seq::filter);
            assert(ports_view(boats@).filter(is_up()) =~= Seq::empty());
            assert(ports_view(kept@) =~= before.filter(is_up()));
            lemma_filter_well_kept(before, is_up());
        }
        self.boats = kept;
    }

    /// The names of `available` that no link of the table has, in their
    /// order.
    pub fn unknown(&self, available: &Vec<String>) -> (candidates: Vec<String>)
        ensures
            texts(candidates@) == texts(available@).filter(is_unknown(self@.ports)),
            forall|i: int|
                0 <= i < candidates.len() ==> position(self@.ports, (#[trigger] candidates[i])@)
                    is None,
    {
        let mut candidates: Vec<String> = Vec::new();
        let mut i: usize = 0;
        let ghost all = texts(available@);
        let ghost pred = is_unknown(self@.ports);
        proof {
            reveal(Seq::filter);
            assert(all.subrange(0, 0).filter(pred) =~= Seq::empty());
            assert(texts(candidates@) =~= Seq::empty());
        }
        while i < available.len()
            invariant
                i <= available.len(),
                all == texts(available@),
                pred == is_unknown(self@.ports),
                texts(candidates@) == all.subrange(0, i as int).filter(pred),
                forall|k: int|
                    0 <= k < candidates.len() ==> position(self@.ports, (#[trigger] candidates[k])@)
                        is None,
            decreases available.len() - i,
        {
            let ghost done = all.subrange(0, i as int);
            proof {
                reveal(Seq::filter);
                assert(all.subrange(0, i + 1).drop_last() =~= done);
                assert(all.subrange(0, i + 1).last() == available[i as int]@);
            }
            if self.find(&available[i]).is_none() {
                let name = available[i].clone();
                candidates.push(name);
                proof {
                    assert(texts(candidates@) =~= done.filter(pred).push(available[i as int]@));
                }
            }
            i = i + 1;
        }
        proof {
            assert(all.subrange(0, i as int) =~= all);
        }
        candidates
    }

    /// Hands out the events that wait to be forwarded, oldest first, and
    /// leaves none behind.
    pub fn take_events(&mut self) -> (events: Vec<LinkEvent>)
        ensures
            events_view(events@) == old(self)@.events,
            final(self)@ == (TableView { events: Seq::empty(), ..old(self)@ }),
    {
        proof {
            use_type_invariant(&*self);
        }
        let mut events: Vec<LinkEvent> = Vec::new();
        std::mem::swap(&mut events, &mut self.events);
        proof {
            assert(final(self)@.events =~= Seq::empty());
        }
        events
    }

    /// Drops every link, as on shutdown: whoever polls a link finds it gone.
    pub fn clear(&mut self)
        ensures
            final(self)@ == (TableView { ports: Seq::empty(), ..old(self)@ }),
    {
        self.boats = Vec::new();
        proof {
            assert(final(self)@.ports =~= Seq::empty());
        }
    }
}

impl Default for ConnectedBoats {
    /// A table without links.
    fn default() -> (table: ConnectedBoats)
        ensures
            table@ == (TableView { ports: Seq::empty(), events: Seq::empty() }),
    {
        ConnectedBoats::new()
    }
}

/// Begins a search for boats. The links that are down leave the table; the
/// result names the transports of `available` on which a handshake is to
/// be tried: those whose name no link of the table has.
pub fn find_ports(boats: &mut ConnectedBoats, available: &Vec<String>) -> (candidates: Vec<String>)
    ensures
        final(boats)@ == (TableView { ports: old(boats)@.ports.filter(is_up()), ..old(boats)@ }),
        texts(candidates@) == texts(available@).filter(is_unknown(final(boats)@.ports)),
        forall|i: int|
            0 <= i < candidates.len() ==> position(final(boats)@.ports, (#[trigger] candidates[i])@)
                is None,
        well_kept(final(boats)@.ports),
{
    boats.purge();
    boats.unknown(available)
}

/// Ends a search for boats. The links on which a handshake was tried are
/// handed to the table in their order: those that are up come in, each
/// under its name, and the result names the links that the table then
/// holds, none of them twice.
pub fn register_ports(boats: &mut ConnectedBoats, links: Vec<BoatPort>) -> (list: Vec<String>)
    ensures
        final(boats)@ == installed_all(old(boats)@, ports_view(links@)),
        texts(list@) == names(final(boats)@.ports),
        forall|i: int, j: int|
            0 <= i < list.len() && 0 <= j < list.len() && i != j ==> (#[trigger] list[i])@ != (
            #[trigger] list[j])@,
        well_kept(final(boats)@.ports),
{
    let mut links = links;
    let ghost all = ports_view(links@);
    while links.len() > 0
        invariant
            installed_all(old(boats)@, all) == installed_all(boats@, ports_view(links@)),
        decreases links.len(),
    {
        let ghost rest = ports_view(links@);
        let link = links.remove(0);
        proof {
            assert(ports_view(links@) =~= rest.drop_first());
            assert(rest[0] == link@);
        }
        boats.install(link);
    }
    let list = boats.keys();
    let _ = boats.len();
    list
}

/// Takes the report of the driver into the transfer of a path over the link
/// named `port` and says what to do next. When the table holds no such
/// link the transfer ends with `NotFound`.
pub fn send_path(boats: &mut ConnectedBoats, port: &str, transfer: &mut PathTransfer, event: Event) -> (action:
    Action<Result<(), CommError>>)
    ensures
        final(transfer)@ == routed(old(transfer)@, old(boats)@, port@, event@).0,
        final(boats)@ == routed(old(transfer)@, old(boats)@, port@, event@).1,
        action.deep() == routed(old(transfer)@, old(boats)@, port@, event@).2,
        well_kept(final(boats)@.ports),
{
    let name = String::from_str(port);
    match boats.find(&name) {
        None => Action::Finished(Err(CommError::NotFound(name))),
        Some(i) => {
            let ghost before = boats@;
            proof {
                lemma_position(before.ports, name@);
            }
            let mut link = boats.detach(i);
            let action = link.send_path(transfer, event);
            boats.restore(i, link, Ghost(before));
            let _ = boats.len();
            action
        },
    }
}

} // verus!
