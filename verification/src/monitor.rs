//! The watch over the server that the panel shows: once a second, what is asked and what is said.
use vstd::prelude::*;

use crate::listing::{format_uptime, uptime};
use crate::text::{is_empty, same};

verus! {

/// What the watch remembers: how often it looked, which server it looked at, on which port, and
/// since when that one has been up, in milliseconds.
pub struct Monitor {
    pub tick: u32,
    pub id: String,
    pub port: String,
    pub up_since: Option<u64>,
}

/// What the watch remembers.
pub struct MonitorV {
    pub tick: u32,
    pub id: Seq<char>,
    pub port: Seq<char>,
    pub up_since: Option<u64>,
}

impl View for Monitor {
    type V = MonitorV;

    open spec fn view(&self) -> MonitorV {
        MonitorV { tick: self.tick, id: self.id@, port: self.port@, up_since: self.up_since }
    }
}

/// What a look begins with.
#[derive(Clone, Copy, Debug, PartialEq, Eq, Structural)]
pub enum Turn {
    /// No server is shown.
    Idle,
    /// The port is known.
    Known,
    /// The port has to be looked up.
    Reload,
}

/// What is asked in a look.
#[derive(Clone, Copy, Debug, PartialEq, Eq, Structural)]
pub struct Questions {
    /// Who plays.
    pub players: bool,
    /// How full the disk is.
    pub disk: bool,
}

/// What is done once a server was told to stop.
#[derive(Clone, Copy, Debug, PartialEq, Eq, Structural)]
pub enum StopAction {
    /// The server has stopped: only its number is forgotten.
    Forget,
    /// The server is stopped by force.
    Kill,
    /// The server is stopped by force, and the log says so.
    KillAndSay,
}

/// What is done with a server: it was `asked` to stop, or could not be, and its port is still
/// open, or not.
pub fn after_stop(asked: bool, port_open: bool) -> (r: StopAction)
    ensures
        !asked ==> r == StopAction::KillAndSay,
        asked && port_open ==> r == StopAction::Kill,
        asked && !port_open ==> r == StopAction::Forget,
{
    if !asked {
        StopAction::KillAndSay
    } else if port_open {
        StopAction::Kill
    } else {
        StopAction::Forget
    }
}

/// What a look found.
pub struct Report {
    pub running: bool,
    pub uptime: String,
    /// Whether the log file is shown: the server runs, but not as a child of the panel.
    pub read_log: bool,
    /// Whether the worlds are listed again.
    pub list_worlds: bool,
}

/// The count after one more look; it begins again at zero.
pub open spec fn next_tick(tick: u32) -> u32 {
    if tick == u32::MAX {
        0
    } else {
        (tick + 1) as u32
    }
}

/// What the watch remembers once a look has begun, with `active` as the server that is shown.
pub open spec fn begun(m: MonitorV, active: Seq<char>) -> MonitorV {
    if active.len() == 0 {
        MonitorV { tick: next_tick(m.tick), id: Seq::empty(), port: m.port, up_since: None }
    } else {
        MonitorV {
            tick: next_tick(m.tick),
            id: active,
            port: m.port,
            up_since: if active == m.id {
                m.up_since
            } else {
                None
            },
        }
    }
}

/// Since when the server has been up, at `now`.
pub open spec fn up_from(m: MonitorV, running: bool, now: u64) -> Option<u64> {
    if !running {
        None
    } else if m.up_since is Some {
        m.up_since
    } else {
        Some(now)
    }
}

/// How long the server has been up, in seconds.
pub open spec fn seconds_up(since: u64, now: u64) -> u64 {
    if now < since {
        0
    } else {
        ((now - since) as u64 / 1000) as u64
    }
}

impl Monitor {
    /// A watch that has not looked yet.
    pub fn new() -> (r: Monitor)
        ensures
            r@ == (MonitorV { tick: 0, id: Seq::empty(), port: Seq::empty(), up_since: None }),
    {
        Monitor { tick: 0, id: String::new(), port: String::new(), up_since: None }
    }

    /// Begins a look at the server `active`. The port is looked up for another server than last
    /// time, and every eighth time.
    pub fn begin(&mut self, active: &str) -> (r: Turn)
        ensures
            final(self)@ == begun(old(self)@, active@),
            r == (if active@.len() == 0 {
                Turn::Idle
            } else if active@ != old(self)@.id || next_tick(old(self)@.tick) % 8 == 0 {
                Turn::Reload
            } else {
                Turn::Known
            }),
    {
        self.tick = if self.tick == u32::MAX {
            0
        } else {
            self.tick + 1
        };
        if is_empty(active) {
            self.id = String::new();
            self.up_since = None;
            return Turn::Idle;
        }
        let other = !same(active, self.id.as_str());
        if other {
            self.up_since = None;
        }
        if other || self.tick % 8 == 0 {
            self.id = active.to_owned();
            return Turn::Reload;
        }
        Turn::Known
    }

    /// Notes the port of the server.
    pub fn set_port(&mut self, port: &str)
        ensures
            final(self)@ == (MonitorV { port: port@, ..old(self)@ }),
    {
        self.port = port.to_owned();
    }

    /// What is asked in this look: every third time who plays, where the port is open; every
    /// fifteenth time how full the disk is.
    pub fn questions(&self, port_open: bool) -> (r: Questions)
        ensures
            r.players == (port_open && self@.tick % 3 == 0),
            r.disk == (self@.tick % 15 == 1),
    {
        Questions { players: port_open && self.tick % 3 == 0, disk: self.tick % 15 == 1 }
    }

    /// What this look found at `now`: the server runs if its process is a child of the panel or
    /// its port is open.
    pub fn report(&mut self, child_alive: bool, port_open: bool, now: u64) -> (r: Report)
        ensures
            ({
                let running = child_alive || port_open;
                let since = up_from(old(self)@, running, now);
                &&& final(self)@ == (MonitorV { up_since: since, ..old(self)@ })
                &&& r.running == running
                &&& r.uptime@ == (match since {
                    Some(t) => uptime(seconds_up(t, now)),
                    None => Seq::empty(),
                })
                &&& r.read_log == (running && !child_alive)
                &&& r.list_worlds == (running && old(self)@.tick % 5 == 0)
            }),
    {
        let running = child_alive || port_open;
        if running {
            if self.up_since.is_none() {
                self.up_since = Some(now);
            }
        } else {
            self.up_since = None;
        }
        let uptime = match self.up_since {
            Some(t) => {
                let secs: u64 = if now < t {
                    0
                } else {
                    (now - t) / 1000
                };
                format_uptime(secs)
            },
            None => String::new(),
        };
        Report {
            running,
            uptime,
            read_log: running && !child_alive,
            list_worlds: running && self.tick % 5 == 0,
        }
    }
}

/// While the same server is shown and stays up, the time it has been up counts from when it came
/// up.
pub proof fn law_uptime_counts_on(m: MonitorV, active: Seq<char>, since: u64, now: u64)
    requires
        active.len() > 0,
        m.id == active,
        m.up_since == Some(since),
    ensures
        begun(m, active).up_since == Some(since),
        up_from(begun(m, active), true, now) == Some(since),
{
}

/// A server that comes up, or that is shown for the first time, has been up for no time at all.
pub proof fn law_uptime_begins_at_zero(m: MonitorV, active: Seq<char>, now: u64)
    requires
        active.len() > 0,
        m.id != active || m.up_since is None,
    ensures
        up_from(begun(m, active), true, now) == Some(now),
        seconds_up(now, now) == 0,
{
}

/// The watch counts its looks one by one, and begins again after the largest number. Another server
/// than last time, or none, is watched from anew; the port is kept.
pub proof fn law_a_look_begins(m: MonitorV, active: Seq<char>)
    ensures
        m.tick < 0xffff_ffff ==> begun(m, active).tick == m.tick + 1,
        m.tick == 0xffff_ffff ==> begun(m, active).tick == 0,
        begun(m, active).id == active,
        begun(m, active).port == m.port,
        active.len() == 0 || active != m.id ==> begun(m, active).up_since is None,
        active.len() > 0 && active == m.id ==> begun(m, active).up_since == m.up_since,
        m.tick < 0xffff_ffff ==> next_tick(m.tick) == m.tick + 1,
{
    if active.len() == 0 {
        assert(active =~= Seq::<char>::empty());
    }
}

/// A server that does not run is up since no time; one that runs is up since it was first seen, and
/// for as many whole seconds as have passed since; none where the clock went back.
pub proof fn law_time_up(m: MonitorV, since: u64, now: u64)
    ensures
        up_from(m, false, now) is None,
        m.up_since is Some ==> up_from(m, true, now) == m.up_since,
        m.up_since is None ==> up_from(m, true, now) == Some(now),
        since <= now ==> 1000 * seconds_up(since, now) <= now - since < 1000 * (seconds_up(since, now)
            + 1),
        now < since ==> seconds_up(since, now) == 0,
{
}

} // verus!
