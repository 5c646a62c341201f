//! The configuration of the server: where it listens, what it serves, and
//! what it does with a file of a given extension.
//!
//! The values come from outside, already read and parsed; this module fills
//! in the defaults and answers the questions that the route builder asks.

use vstd::prelude::*;
use vstd::string::StringExecFns;
use crate::text::{
    chars_of, head, lemma_find_from_bounds, parse_bounded, parse_number, split_once, tail,
};

verus! {

/// What the server does with a file, by its extension.
#[derive(Clone, Copy, Debug, PartialEq, Eq, Structural)]
pub enum ExtensionBehavior {
    /// The file is not served.
    Deny,
    /// The file is fetched and returned.
    Fetch,
    /// The file is run as code.
    ProcessCode,
    /// The file is fetched and processed by a function.
    FetchAndProcessCode,
    /// The file is fetched and filled in as a template.
    FetchAndProcessTemplate,
}

/// The routing part of the configuration.
pub struct RoutingOptions {
    pub default_behavior: Option<ExtensionBehavior>,
    pub extension_behaviors: Option<Vec<(String, ExtensionBehavior)>>,
}

/// The configuration.
pub struct Config {
    pub listen_on: Option<String>,
    pub serve_root: Option<String>,
    pub watch_dirs: Option<Vec<String>>,
    pub routing: Option<RoutingOptions>,
}

/// The entries of a list of behaviors, each extension as its characters.
pub open spec fn entries_of(list: Seq<(String, ExtensionBehavior)>) -> Seq<
    (Seq<char>, ExtensionBehavior),
> {
    list.map_values(|e: (String, ExtensionBehavior)| (e.0@, e.1))
}

/// The behavior that `entries` give to `ext`: that of the last entry for it,
/// as when the entries are put into a map one after the other.
pub open spec fn assigned(entries: Seq<(Seq<char>, ExtensionBehavior)>, ext: Seq<char>) -> Option<
    ExtensionBehavior,
>
    decreases entries.len(),
{
    if entries.len() == 0 {
        None
    } else if entries.last().0 == ext {
        Some(entries.last().1)
    } else {
        assigned(entries.drop_last(), ext)
    }
}

/// No extension has two entries.
pub open spec fn distinct_keys(entries: Seq<(Seq<char>, ExtensionBehavior)>) -> bool {
    forall|i: int, j: int|
        0 <= i < entries.len() && 0 <= j < entries.len() && i != j ==> (#[trigger] entries[i]).0 != (
        #[trigger] entries[j]).0
}

/// One part of a dotted address as a number: 0 where the part is no number
/// of at most 255.
pub open spec fn octet(part: Seq<char>) -> u8 {
    match parse_number(part, 255) {
        Some(n) => n as u8,
        None => 0,
    }
}

/// The numbers of the parts of `host`, cut at each dot.
pub open spec fn octets(host: Seq<char>) -> Seq<u8>
    decreases host.len(),
{
    seq![octet(head(host, '.'))] + (match tail(host, '.') {
        Some(rest) => {
            proof {
                lemma_find_from_bounds(host, '.', 0);
            }
            octets(rest)
        },
        None => Seq::empty(),
    })
}

/// The address that `host` names: `localhost` is 127.0.0.1; otherwise the
/// numbers of its dotted parts, with 0 for each part that is missing. A host
/// of more than four parts names no address.
pub open spec fn host_address(host: Seq<char>) -> Option<Seq<u8>> {
    if host == "localhost"@ {
        Some(seq![127u8, 0u8, 0u8, 1u8])
    } else if octets(host).len() <= 4 {
        Some(Seq::new(4, |i: int| if i < octets(host).len() { octets(host)[i] } else { 0u8 }))
    } else {
        None
    }
}

/// The port that `text` names, after its first colon and up to the next:
/// 8080 where there is no colon or no number of at most 65535 behind it.
pub open spec fn port_of(text: Seq<char>) -> u16 {
    match tail(text, ':') {
        Some(rest) => match parse_number(head(rest, ':'), 65535) {
            Some(n) => n as u16,
            None => 8080,
        },
        None => 8080,
    }
}

/// The address and port that `text` stands for, in the form `host:port`.
pub open spec fn listen_address(text: Seq<char>) -> Option<(Seq<u8>, u16)> {
    match host_address(head(text, ':')) {
        Some(ip) => Some((ip, port_of(text))),
        None => None,
    }
}

/// Whether two texts hold the same characters.
fn same_chars(a: &Vec<char>, b: &Vec<char>) -> (same: bool)
    ensures
        same == (a@ == b@),
{
    if a.len() != b.len() {
        return false;
    }
    let mut i: usize = 0;
    while i < a.len()
        invariant
            a@.len() == b@.len(),
            i <= a@.len(),
            forall|j: int| 0 <= j < i ==> a@[j] == b@[j],
        decreases a@.len() - i,
    {
        if a[i] != b[i] {
            return false;
        }
        i = i + 1;
    }
    assert(a@ =~= b@);
    true
}

/// Reads the numbers of the dotted parts of `host`.
fn read_octets(host: Vec<char>) -> (numbers: Vec<u8>)
    ensures
        numbers@ == octets(host@),
{
    let mut numbers: Vec<u8> = Vec::new();
    let mut rest = host;
    loop
        invariant_except_break
            numbers@ + octets(rest@) == octets(host@),
        ensures
            numbers@ == octets(host@),
        decreases rest@.len(),
    {
        let ghost before = rest@;
        let ghost so_far = numbers@;
        let (part, more) = split_once(&rest, '.');
        let number: u8 = match parse_bounded(&part, 255) {
            Some(n) => n as u8,
            None => 0,
        };
        numbers.push(number);
        proof {
            lemma_find_from_bounds(before, '.', 0);
            assert(number == octet(head(before, '.')));
        }
        match more {
            Some(next) => {
                proof {
                    assert(so_far + octets(before) =~= so_far.push(number) + octets(next@));
                }
                rest = next;
            },
            None => {
                proof {
                    assert(so_far + octets(before) =~= so_far.push(number));
                }
                break;
            },
        }
    }
    numbers
}

/// Reads `text` as `host:port`. Returns `None` where the host is not
/// `localhost` and has more than four dotted parts.
pub fn parse_listen_on(text: &str) -> (r: Option<([u8; 4], u16)>)
    ensures
        match r {
            Some(pair) => listen_address(text@) == Some((pair.0@, pair.1)),
            None => listen_address(text@) is None,
        },
{
    let chars = chars_of(text);
    let (host, after) = split_once(&chars, ':');
    let local = chars_of("localhost");
    let ip: [u8; 4] = if same_chars(&host, &local) {
        [127, 0, 0, 1]
    } else {
        let numbers = read_octets(host);
        if numbers.len() > 4 {
            return None;
        }
        let a: u8 = if numbers.len() > 0 { numbers[0] } else { 0 };
        let b: u8 = if numbers.len() > 1 { numbers[1] } else { 0 };
        let c: u8 = if numbers.len() > 2 { numbers[2] } else { 0 };
        let d: u8 = if numbers.len() > 3 { numbers[3] } else { 0 };
        [a, b, c, d]
    };
    let port: u16 = match after {
        Some(rest) => {
            let (digits, _) = split_once(&rest, ':');
            match parse_bounded(&digits, 65535) {
                Some(n) => n as u16,
                None => 8080,
            }
        },
        None => 8080,
    };
    proof {
        let h = head(text@, ':');
        assert(host_address(h) is Some);
        assert(ip@ =~= host_address(h)->0);
    }
    Some((ip, port))
}

/// In a list without a repeated extension, each entry gives its extension
/// its behavior.
proof fn lemma_assigned_entry(entries: Seq<(Seq<char>, ExtensionBehavior)>, j: int)
    requires
        distinct_keys(entries),
        0 <= j < entries.len(),
    ensures
        assigned(entries, entries[j].0) == Some(entries[j].1),
    decreases entries.len(),
{
    if j < entries.len() - 1 {
        let rest = entries.drop_last();
        assert(entries.last() == entries[entries.len() - 1]);
        assert(entries.last().0 != entries[j].0);
        assert(rest[j] == entries[j]);
        assert forall|a: int, b: int|
            0 <= a < rest.len() && 0 <= b < rest.len() && a != b implies (#[trigger] rest[a]).0 != (
        #[trigger] rest[b]).0 by {
            assert(rest[a] == entries[a] && rest[b] == entries[b]);
        }
        lemma_assigned_entry(rest, j);
    }
}

/// A list without an entry for an extension gives it no behavior.
proof fn lemma_assigned_none(entries: Seq<(Seq<char>, ExtensionBehavior)>, ext: Seq<char>)
    requires
        forall|j: int| 0 <= j < entries.len() ==> (#[trigger] entries[j]).0 != ext,
    ensures
        assigned(entries, ext) is None,
    decreases entries.len(),
{
    if entries.len() > 0 {
        let rest = entries.drop_last();
        assert(entries.last() == entries[entries.len() - 1]);
        assert forall|j: int| 0 <= j < rest.len() implies (#[trigger] rest[j]).0 != ext by {
            assert(rest[j] == entries[j]);
        }
        lemma_assigned_none(rest, ext);
    }
}

impl RoutingOptions {
    /// The entries of the list of behaviors; none where there is no list.
    pub open spec fn entries(&self) -> Seq<(Seq<char>, ExtensionBehavior)> {
        match self.extension_behaviors {
            Some(list) => entries_of(list@),
            None => Seq::empty(),
        }
    }
}

impl Config {
    /// The text that says where to listen: `127.0.0.1:8080` where the
    /// configuration holds none.
    pub open spec fn listen_text(&self) -> Seq<char> {
        match self.listen_on {
            Some(s) => s@,
            None => "127.0.0.1:8080"@,
        }
    }

    /// The routing options are there, with a default behavior.
    pub open spec fn routed(&self) -> bool {
        self.routing matches Some(r) && r.default_behavior is Some
    }

    /// The behavior of a file of extension `ext`: that of the last entry for
    /// it in the list, or the default behavior if it has none.
    pub open spec fn behavior_of(&self, ext: Seq<char>) -> ExtensionBehavior {
        match assigned(self.routing->0.entries(), ext) {
            Some(b) => b,
            None => self.routing->0.default_behavior->0,
        }
    }

    /// The directory to serve: `./public` where the configuration names
    /// none.
    pub open spec fn serve_root_text(&self) -> Seq<char> {
        match self.serve_root {
            Some(s) => s@,
            None => "./public"@,
        }
    }

    /// A configuration of these values, with the routing defaults filled
    /// in: where no default behavior is given it is `Deny`, and where no
    /// list of behaviors is given it is the one entry `html`, `Fetch`.
    pub fn new(
        listen_on: Option<String>,
        serve_root: Option<String>,
        watch_dirs: Option<Vec<String>>,
        routing: Option<RoutingOptions>,
    ) -> (config: Config)
        ensures
            config.listen_on == listen_on,
            config.serve_root == serve_root,
            config.watch_dirs == watch_dirs,
            config.routed(),
            config.routing->0.default_behavior == Some(
                match routing {
                    Some(RoutingOptions { default_behavior: Some(b), .. }) => b,
                    _ => ExtensionBehavior::Deny,
                },
            ),
            config.routing->0.extension_behaviors is Some,
            match routing {
                Some(RoutingOptions { extension_behaviors: Some(list), .. }) => config.routing->0.extension_behaviors
                    == Some(list),
                _ => config.routing->0.entries() == seq![("html"@, ExtensionBehavior::Fetch)],
            },
    {
        let mut config = Config { listen_on, serve_root, watch_dirs, routing };
        let default_default_behavior = ExtensionBehavior::Deny;
        let mut default_extension_behaviors: Vec<(String, ExtensionBehavior)> = Vec::new();
        default_extension_behaviors.push(("html".to_string(), ExtensionBehavior::Fetch));
        proof {
            assert(entries_of(default_extension_behaviors@) =~= seq![
                ("html"@, ExtensionBehavior::Fetch),
            ]);
        }
        let (no_routing, no_default, no_list) = match &config.routing {
            None => (true, false, false),
            Some(r) => (false, r.default_behavior.is_none(), r.extension_behaviors.is_none()),
        };
        if no_routing {
            config.set_routing_options(
                RoutingOptions {
                    default_behavior: Some(default_default_behavior),
                    extension_behaviors: Some(default_extension_behaviors),
                },
            );
        } else {
            if no_default {
                config.set_routing_default_behavior(default_default_behavior);
            }
            if no_list {
                config.set_routing_extension_behaviors(default_extension_behaviors);
            }
        }
        config
    }

    /// Replaces the routing options.
    pub fn set_routing_options(&mut self, routing_options: RoutingOptions)
        ensures
            final(self).routing == Some(routing_options),
            final(self).listen_on == old(self).listen_on,
            final(self).serve_root == old(self).serve_root,
            final(self).watch_dirs == old(self).watch_dirs,
    {
        self.routing = Some(routing_options);
    }

    /// Sets the default behavior. A configuration without routing options
    /// is left as it is.
    pub fn set_routing_default_behavior(&mut self, behavior: ExtensionBehavior)
        ensures
            final(self).listen_on == old(self).listen_on,
            final(self).serve_root == old(self).serve_root,
            final(self).watch_dirs == old(self).watch_dirs,
            match old(self).routing {
                None => final(self).routing is None,
                Some(r) => final(self).routing == Some(
                    RoutingOptions {
                        default_behavior: Some(behavior),
                        extension_behaviors: r.extension_behaviors,
                    },
                ),
            },
    {
        match &mut self.routing {
            None => {},
            Some(r) => {
                r.default_behavior = Some(behavior);
            },
        }
    }

    /// Sets the list of behaviors. A configuration without routing options
    /// is left as it is.
    pub fn set_routing_extension_behaviors(&mut self, behaviors: Vec<(String, ExtensionBehavior)>)
        ensures
            final(self).listen_on == old(self).listen_on,
            final(self).serve_root == old(self).serve_root,
            final(self).watch_dirs == old(self).watch_dirs,
            match old(self).routing {
                None => final(self).routing is None,
                Some(r) => final(self).routing == Some(
                    RoutingOptions {
                        default_behavior: r.default_behavior,
                        extension_behaviors: Some(behaviors),
                    },
                ),
            },
    {
        match &mut self.routing {
            None => {},
            Some(r) => {
                r.extension_behaviors = Some(behaviors);
            },
        }
    }

    /// The address and the port to listen on. The text of the configuration
    /// has the form `host:port`; without one the server listens on
    /// 127.0.0.1:8080.
    pub fn get_listen_on(&self) -> (r: ([u8; 4], u16))
        requires
            listen_address(self.listen_text()) is Some,
        ensures
            listen_address(self.listen_text()) == Some((r.0@, r.1)),
    {
        let parsed = match &self.listen_on {
            Some(s) => parse_listen_on(s.as_str()),
            None => parse_listen_on("127.0.0.1:8080"),
        };
        match parsed {
            Some(pair) => pair,
            None => ([127, 0, 0, 1], 8080),
        }
    }

    /// The directory to serve: `./public` where the configuration names
    /// none.
    pub fn get_serve_root(&self) -> (root: String)
        ensures
            root@ == self.serve_root_text(),
    {
        match &self.serve_root {
            Some(s) => s.clone(),
            None => "./public".to_string(),
        }
    }

    /// The line that tells which directory is served: `Serve root: `, then
    /// the directory.
    pub fn serve_root_line(&self) -> (line: String)
        ensures
            line@ == "Serve root: "@ + self.serve_root_text(),
    {
        let root = self.get_serve_root();
        "Serve root: ".to_string().concat(root.as_str())
    }

    /// The directories to watch: none where the configuration names none.
    pub fn _get_watch_dirs(&self) -> (dirs: Vec<String>)
        ensures
            match self.watch_dirs {
                Some(list) => dirs@.len() == list@.len() && forall|i: int|
                    0 <= i < list@.len() ==> #[trigger] dirs@[i] == list@[i],
                None => dirs@.len() == 0,
            },
    {
        let mut dirs: Vec<String> = Vec::new();
        match &self.watch_dirs {
            Some(list) => {
                let mut i: usize = 0;
                while i < list.len()
                    invariant
                        i <= list@.len(),
                        dirs@.len() == i,
                        forall|j: int| 0 <= j < i ==> #[trigger] dirs@[j] == list@[j],
                    decreases list@.len() - i,
                {
                    dirs.push(list[i].clone());
                    i = i + 1;
                }
            },
            None => {},
        }
        dirs
    }

    /// The behavior for an extension that has no entry.
    pub fn get_routing_default_behavior(&self) -> (behavior: ExtensionBehavior)
        requires
            self.routed(),
        ensures
            Some(behavior) == self.routing->0.default_behavior,
    {
        match &self.routing {
            Some(r) => match r.default_behavior {
                Some(behavior) => behavior,
                None => ExtensionBehavior::Deny,
            },
            None => ExtensionBehavior::Deny,
        }
    }

    /// The behaviors by extension, as a table: each extension of the list
    /// once, with the behavior of its last entry. Without a list the table
    /// is empty.
    pub fn get_routing_extension_behaviors(&self) -> (table: Vec<(String, ExtensionBehavior)>)
        requires
            self.routing is Some,
        ensures
            distinct_keys(entries_of(table@)),
            forall|ext: Seq<char>|
                assigned(entries_of(table@), ext) == assigned(self.routing->0.entries(), ext),
    {
        let mut table: Vec<(String, ExtensionBehavior)> = Vec::new();
        let list = match &self.routing {
            Some(RoutingOptions { extension_behaviors: Some(list), .. }) => list,
            _ => {
                return table;
            },
        };
        let ghost all = entries_of(list@);
        let mut i: usize = 0;
        while i < list.len()
            invariant
                i <= list@.len(),
                all == entries_of(list@),
                distinct_keys(entries_of(table@)),
                forall|ext: Seq<char>|
                    assigned(entries_of(table@), ext) == assigned(all.take(i as int), ext),
            decreases list@.len() - i,
        {
            let ghost t1 = entries_of(table@);
            let ghost key = list@[i as int].0@;
            let behavior = list[i].1;
            let mut j: usize = 0;
            while j < table.len() && table[j].0 != list[i].0
                invariant
                    i < list@.len(),
                    j <= table@.len(),
                    key == list@[i as int].0@,
                    forall|m: int| 0 <= m < j ==> (#[trigger] entries_of(table@)[m]).0 != key,
                decreases table@.len() - j,
            {
                j = j + 1;
            }
            if j < table.len() {
                table.set(j, (list[i].0.clone(), behavior));
            } else {
                table.push((list[i].0.clone(), behavior));
            }
            proof {
                let t2 = entries_of(table@);
                let next = all.take(i + 1);
                assert(next.drop_last() =~= all.take(i as int));
                assert(next.last() == (key, behavior));
                if j < t1.len() {
                    assert(t1[j as int].0 == key);
                    assert(t2 =~= t1.update(j as int, (key, behavior)));
                } else {
                    assert(t2 =~= t1.push((key, behavior)));
                }
                assert(distinct_keys(t2)) by {
                    assert forall|a: int, b: int|
                        0 <= a < t2.len() && 0 <= b < t2.len() && a != b implies (
                    #[trigger] t2[a]).0 != (#[trigger] t2[b]).0 by {
                        if a < t1.len() && b < t1.len() {
                            assert(t1[a].0 != t1[b].0);
                        }
                    }
                }
                assert forall|ext: Seq<char>| assigned(t2, ext) == assigned(next, ext) by {
                    if ext == key {
                        if j < t1.len() {
                            lemma_assigned_entry(t2, j as int);
                        } else {
                            assert(t2.last() == (key, behavior));
                        }
                    } else {
                        assert(assigned(next, ext) == assigned(all.take(i as int), ext));
                        assert(assigned(t1, ext) == assigned(all.take(i as int), ext));
                        if exists|m: int| 0 <= m < t1.len() && (#[trigger] t1[m]).0 == ext {
                            let m = choose|m: int| 0 <= m < t1.len() && (#[trigger] t1[m]).0 == ext;
                            assert(t2[m] == t1[m]);
                            lemma_assigned_entry(t1, m);
                            lemma_assigned_entry(t2, m);
                        } else {
                            lemma_assigned_none(t1, ext);
                            assert forall|m: int| 0 <= m < t2.len() implies (#[trigger] t2[m]).0
                                != ext by {
                                if m < t1.len() && m != j {
                                    assert(t2[m] == t1[m]);
                                }
                            }
                            lemma_assigned_none(t2, ext);
                        }
                    }
                }
            }
            i = i + 1;
        }
        proof {
            assert(all.take(i as int) =~= all);
        }
        table
    }

    /// What to do with a file of extension `ext`: the behavior of its last
    /// entry in the list, or the default behavior if it has none.
    pub fn behavior_for_extension(&self, ext: &str) -> (behavior: ExtensionBehavior)
        requires
            self.routed(),
        ensures
            behavior == self.behavior_of(ext@),
    {
        let fallback = self.get_routing_default_behavior();
        let list = match &self.routing {
            Some(RoutingOptions { extension_behaviors: Some(list), .. }) => list,
            _ => {
                return fallback;
            },
        };
        let wanted = ext.to_owned();
        let ghost all = entries_of(list@);
        let mut i: usize = list.len();
        assert(all.take(i as int) =~= all);
        assert(all == self.routing->0.entries());
        while i > 0
            invariant
                i <= list@.len(),
                all == entries_of(list@),
                all == self.routing->0.entries(),
                wanted@ == ext@,
                assigned(all, ext@) == assigned(all.take(i as int), ext@),
            decreases i,
        {
            i = i - 1;
            proof {
                let prefix = all.take(i + 1);
                assert(prefix.last() == all[i as int]);
                assert(prefix.drop_last() =~= all.take(i as int));
                assert(all[i as int] == (list@[i as int].0@, list@[i as int].1));
            }
            if list[i].0 == wanted {
                return list[i].1;
            }
        }
        fallback
    }

    /// Whether a file of extension `ext` gets a route: it does unless its
    /// behavior is `Deny`.
    pub fn is_served(&self, ext: &str) -> (served: bool)
        requires
            self.routed(),
        ensures
            served == !(self.behavior_of(ext@) is Deny),
    {
        match self.behavior_for_extension(ext) {
            ExtensionBehavior::Deny => false,
            _ => true,
        }
    }
}

/// The path of the configuration file: the second of `args`, or the
/// fallback file where there are fewer than two.
pub fn get_config_path_or_fallback(args: &Vec<String>, debug: bool) -> (path: String)
    ensures
        path@ == (if args@.len() >= 2 {
            args@[1]@
        } else if debug {
            "./_test_files/config.toml"@
        } else {
            "config.toml"@
        }),
{
    if args.len() >= 2 {
        args[1].clone()
    } else {
        fallback_file(debug)
    }
}

/// The configuration file to fall back on: in a debug build the one of the
/// test files.
pub fn fallback_file(debug: bool) -> (path: String)
    ensures
        path@ == (if debug {
            "./_test_files/config.toml"@
        } else {
            "config.toml"@
        }),
{
    if debug {
        "./_test_files/config.toml".to_string()
    } else {
        "config.toml".to_string()
    }
}

} // verus!
