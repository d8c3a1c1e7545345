//! How a node is told where to listen and whom to join.
use std::collections::HashMap;

use crate::ids;
use crate::ids::NodeId;
use crate::text;
use vstd::prelude::*;

verus! {

broadcast use vstd::std_specs::hash::group_hash_axioms;

/// A node's configuration.
#[derive(Debug)]
pub struct Config {
    pub dir: String,
    pub client_addr: String,
    pub peer_addr: String,
    /// Every member's peer address, including this node's.
    pub members: Vec<String>,
}

/// What the arguments say so far.
pub struct Settings {
    pub dir: Seq<char>,
    pub client_addr: Seq<char>,
    pub peer_addr: Seq<char>,
    pub joins: Seq<Seq<char>>,
    /// The arguments that mean nothing.
    pub unknown: Seq<Seq<char>>,
}

impl Settings {
    pub open spec fn defaults() -> Settings {
        Settings {
            dir: "data"@,
            client_addr: "127.0.0.1:5000"@,
            peer_addr: "127.0.0.1:6000"@,
            joins: Seq::empty(),
            unknown: Seq::empty(),
        }
    }

    /// With the flag at `i` and the value after it taken in.
    pub open spec fn with_flag(self, flag: Seq<char>, value: Seq<char>) -> Settings {
        if flag == "--dir"@ {
            Settings { dir: value, ..self }
        } else if flag == "--client"@ {
            Settings { client_addr: value, ..self }
        } else if flag == "--peer"@ {
            Settings { peer_addr: value, ..self }
        } else {
            Settings { joins: self.joins.push(value), ..self }
        }
    }

    /// With the arguments from `i` on taken in.
    pub open spec fn read(self, args: Seq<Seq<char>>, i: int) -> Settings
        decreases args.len() - i,
    {
        if i >= args.len() {
            self
        } else if is_flag(args[i]) {
            if i + 1 < args.len() {
                self.with_flag(args[i], args[i + 1]).read(args, i + 2)
            } else {
                self
            }
        } else {
            Settings { unknown: self.unknown.push(args[i]), ..self }.read(args, i + 1)
        }
    }
}

/// Whether an argument is a flag, which the next argument gives the value of.
pub open spec fn is_flag(arg: Seq<char>) -> bool {
    arg == "--dir"@ || arg == "--client"@ || arg == "--peer"@ || arg == "--join"@
}

/// Whether every flag, from argument `i` on, has a value.
pub open spec fn flags_have_values(args: Seq<Seq<char>>, i: int) -> bool
    decreases args.len() - i,
{
    if i >= args.len() {
        true
    } else if is_flag(args[i]) {
        i + 1 < args.len() && flags_have_values(args, i + 2)
    } else {
        flags_have_values(args, i + 1)
    }
}

// ------------------------------------------------------------------- ordering

/// Whether text `a` comes before text `b`: at the first character where they
/// differ it has the lower one, or it is the beginning of `b`.
pub open spec fn before(a: Seq<char>, b: Seq<char>) -> bool
    decreases a.len(),
{
    if b.len() == 0 {
        false
    } else if a.len() == 0 {
        true
    } else {
        a[0] < b[0] || (a[0] == b[0] && before(a.skip(1), b.skip(1)))
    }
}

/// Whether each text comes before the ones behind it.
pub open spec fn ascending(texts: Seq<Seq<char>>) -> bool {
    forall|i: int, j: int|
        0 <= i < j < texts.len() ==> before(#[trigger] texts[i], #[trigger] texts[j])
}

proof fn lemma_before_total(a: Seq<char>, b: Seq<char>)
    ensures
        before(a, b) || a == b || before(b, a),
        !(before(a, b) && before(b, a)),
    decreases a.len() + b.len(),
{
    if a.len() > 0 && b.len() > 0 {
        lemma_before_total(a.skip(1), b.skip(1));
        if a[0] == b[0] && a.skip(1) == b.skip(1) {
            assert(a =~= seq![a[0]] + a.skip(1));
            assert(b =~= seq![b[0]] + b.skip(1));
        }
    } else if a.len() == 0 && b.len() == 0 {
        assert(a =~= b);
    }
}

proof fn lemma_before_irreflexive(a: Seq<char>)
    ensures
        !before(a, a),
    decreases a.len(),
{
    if a.len() > 0 {
        lemma_before_irreflexive(a.skip(1));
    }
}

proof fn lemma_before_transitive(a: Seq<char>, b: Seq<char>, c: Seq<char>)
    requires
        before(a, b),
        before(b, c),
    ensures
        before(a, c),
    decreases a.len(),
{
    if a.len() > 0 && a[0] == b[0] && b[0] == c[0] {
        lemma_before_transitive(a.skip(1), b.skip(1), c.skip(1));
    }
}

/// Whether text `a` comes before text `b`.
fn comes_before(a: &str, b: &str) -> (r: bool)
    ensures
        r == before(a@, b@),
{
    let a_len: usize = a.unicode_len();
    let b_len: usize = b.unicode_len();
    let mut i: usize = 0;
    assert(a@.skip(0) =~= a@);
    assert(b@.skip(0) =~= b@);
    while i < a_len && i < b_len
        invariant
            a_len == a@.len(),
            b_len == b@.len(),
            i <= a_len,
            i <= b_len,
            before(a@, b@) == before(a@.skip(i as int), b@.skip(i as int)),
        decreases a_len - i,
    {
        let x = a.get_char(i);
        let y = b.get_char(i);
        assert(a@.skip(i as int).skip(1) =~= a@.skip(i + 1));
        assert(b@.skip(i as int).skip(1) =~= b@.skip(i + 1));
        if x != y {
            return (x as u32) < (y as u32);
        }
        i = i + 1;
    }
    i < b_len
}

/// Puts a text in its place among ascending texts, unless it is there already.
fn insert_ascending(texts: &mut Vec<String>, added: String)
    requires
        ascending(text::contents(old(texts)@)),
    ensures
        ascending(text::contents(final(texts)@)),
        forall|t: Seq<char>| #[trigger]
            text::contents(final(texts)@).contains(t) <==> text::contents(old(texts)@).contains(t)
                || t == added@,
{
    let ghost old_views = text::contents(texts@);
    let ghost new = added@;
    let mut i: usize = 0;
    while i < texts.len() && comes_before(texts[i].as_str(), added.as_str())
        invariant
            old_views == text::contents(texts@),
            new == added@,
            i <= texts@.len(),
            forall|k: int| 0 <= k < i ==> before(#[trigger] old_views[k], new),
        decreases texts@.len() - i,
    {
        assert(old_views[i as int] == texts@[i as int]@);
        i = i + 1;
    }
    if i < texts.len() && texts[i] == added {
        proof {
            assert(old_views[i as int] == new);
        }
        return;
    }
    proof {
        if i < texts@.len() {
            assert(old_views[i as int] == texts@[i as int]@);
            lemma_before_total(old_views[i as int], new);
            assert(before(new, old_views[i as int]));
        }
    }
    texts.insert(i, added);
    proof {
        let at = i as int;
        let views = text::contents(texts@);
        assert(views =~= old_views.insert(at, new));
        assert forall|j: int, k: int| 0 <= j < k < views.len() implies before(
            #[trigger] views[j],
            #[trigger] views[k],
        ) by {
            if j < at && k < at {
                assert(before(old_views[j], old_views[k]));
            } else if j > at {
                assert(before(old_views[j - 1], old_views[k - 1]));
            } else if j < at && k > at {
                assert(before(old_views[j], old_views[k - 1]));
            } else if j == at {
                if k - 1 > at {
                    assert(before(old_views[at], old_views[k - 1]));
                    lemma_before_transitive(new, old_views[at], old_views[k - 1]);
                }
            }
        }
        assert forall|t: Seq<char>| #[trigger] views.contains(t) <==> old_views.contains(t) || t
            == new by {
            if views.contains(t) {
                let k = views.index_of(t);
                if k < at {
                    assert(old_views[k] == t);
                } else if k > at {
                    assert(old_views[k - 1] == t);
                }
            }
            if old_views.contains(t) {
                let k = old_views.index_of(t);
                if k < at {
                    assert(views[k] == t);
                } else {
                    assert(views[k + 1] == t);
                }
            }
            if t == new {
                assert(views[at] == t);
            }
        }
    }
}

// -------------------------------------------------------------------- reading

/// Whether an argument is a flag.
fn names_flag(arg: &String) -> (r: bool)
    ensures
        r == is_flag(arg@),
{
    *arg == String::from_str("--dir") || *arg == String::from_str("--client") || *arg
        == String::from_str("--peer") || *arg == String::from_str("--join")
}

/// Whether every flag has a value.
pub fn check_args(args: &Vec<String>) -> (r: bool)
    ensures
        r == flags_have_values(text::contents(args@), 0),
{
    let ghost views = text::contents(args@);
    let mut i: usize = 0;
    while i < args.len()
        invariant
            views == text::contents(args@),
            i <= args@.len(),
            flags_have_values(views, 0) == flags_have_values(views, i as int),
        decreases args@.len() - i,
    {
        assert(views[i as int] == args@[i as int]@);
        if names_flag(&args[i]) {
            if i + 1 >= args.len() {
                return false;
            }
            i = i + 2;
        } else {
            i = i + 1;
        }
    }
    true
}

/// Whether a configuration is what the settings amount to: the members are this
/// node and those it joins, each once, in order.
pub open spec fn configures(settings: Settings, config: Config) -> bool {
    &&& config.dir@ == settings.dir
    &&& config.client_addr@ == settings.client_addr
    &&& config.peer_addr@ == settings.peer_addr
    &&& ascending(text::contents(config.members@))
    &&& forall|member: Seq<char>| #[trigger]
        text::contents(config.members@).contains(member) <==> settings.joins.contains(member)
            || member == settings.peer_addr
}

/// The identifiers of the members.
pub open spec fn member_ids(members: Seq<Seq<char>>) -> Seq<u128> {
    Seq::new(
        members.len(),
        |i: int| ids::name_based_id(vstd::utf8::encode_utf8(members[i])),
    )
}

/// The addresses of the other members by their identifiers, of the first `n`
/// members.
pub open spec fn peer_map(
    members: Seq<Seq<char>>,
    member_ids: Seq<u128>,
    own: Seq<char>,
    n: int,
) -> Map<u128, Seq<char>>
    decreases n,
{
    if n <= 0 {
        Map::empty()
    } else {
        let before = peer_map(members, member_ids, own, n - 1);
        let member = members[n - 1];
        if member == own {
            before
        } else {
            before.insert(member_ids[n - 1], "http://"@ + member)
        }
    }
}

/// The contents of a map of texts.
pub open spec fn map_contents(m: Map<NodeId, String>) -> Map<u128, Seq<char>> {
    m.map_values(|s: String| s@)
}

impl Config {
    /// Reads the arguments of the program, and hands out those that mean
    /// nothing.
    pub fn from_args(args: &Vec<String>) -> (r: (Self, Vec<String>))
        requires
            flags_have_values(text::contents(args@), 0),
        ensures
            ({
                let settings = Settings::defaults().read(text::contents(args@), 0);
                configures(settings, r.0) && text::contents(r.1@) == settings.unknown
            }),
    {
        let ghost views = text::contents(args@);
        let mut dir = String::from_str("data");
        let mut client_addr = String::from_str("127.0.0.1:5000");
        let mut peer_addr = String::from_str("127.0.0.1:6000");
        let mut joins: Vec<String> = Vec::new();
        let mut unknown: Vec<String> = Vec::new();
        let mut i: usize = 0;
        assert(text::contents(joins@) =~= Seq::empty());
        assert(text::contents(unknown@) =~= Seq::empty());
        while i < args.len()
            invariant
                views == text::contents(args@),
                i <= args@.len(),
                flags_have_values(views, i as int),
                Settings::defaults().read(views, 0) == (Settings {
                    dir: dir@,
                    client_addr: client_addr@,
                    peer_addr: peer_addr@,
                    joins: text::contents(joins@),
                    unknown: text::contents(unknown@),
                }).read(views, i as int),
            decreases args@.len() - i,
        {
            assert(views[i as int] == args@[i as int]@);
            if names_flag(&args[i]) {
                assert(views[i + 1] == args@[i + 1]@);
                let value = args[i + 1].clone();
                proof {
                    reveal_strlit("--dir");
                    reveal_strlit("--client");
                    reveal_strlit("--peer");
                    reveal_strlit("--join");
                }
                if args[i] == String::from_str("--dir") {
                    dir = value;
                } else if args[i] == String::from_str("--client") {
                    client_addr = value;
                } else if args[i] == String::from_str("--peer") {
                    peer_addr = value;
                } else {
                    let ghost known = text::contents(joins@);
                    joins.push(value);
                    assert(text::contents(joins@) =~= known.push(views[i + 1]));
                }
                i = i + 2;
            } else {
                let ghost known = text::contents(unknown@);
                unknown.push(args[i].clone());
                assert(text::contents(unknown@) =~= known.push(views[i as int]));
                i = i + 1;
            }
        }
        let members = Config::members(&joins, &peer_addr);
        (Config { dir, client_addr, peer_addr, members }, unknown)
    }

    /// The members of a cluster, each once, in order.
    fn members(joins: &Vec<String>, peer_addr: &String) -> (r: Vec<String>)
        ensures
            ascending(text::contents(r@)),
            forall|member: Seq<char>| #[trigger]
                text::contents(r@).contains(member) <==> text::contents(joins@).contains(member)
                    || member == peer_addr@,
    {
        let ghost views = text::contents(joins@);
        let mut members: Vec<String> = Vec::new();
        insert_ascending(&mut members, peer_addr.clone());
        let mut i: usize = 0;
        while i < joins.len()
            invariant
                views == text::contents(joins@),
                i <= joins@.len(),
                ascending(text::contents(members@)),
                forall|member: Seq<char>| #[trigger]
                    text::contents(members@).contains(member) <==> views.take(i as int).contains(
                        member,
                    ) || member == peer_addr@,
            decreases joins@.len() - i,
        {
            insert_ascending(&mut members, joins[i].clone());
            proof {
                assert(views[i as int] == joins@[i as int]@);
                assert(views.take(i + 1) =~= views.take(i as int).push(views[i as int]));
                assert forall|member: Seq<char>| #[trigger] text::contents(members@).contains(
                    member,
                ) <==> views.take(i + 1).contains(member) || member == peer_addr@ by {
                    let front = views.take(i as int);
                    if front.contains(member) {
                        let k = front.index_of(member);
                        assert(views.take(i + 1)[k] == member);
                    }
                    if member == views[i as int] {
                        assert(views.take(i + 1)[i as int] == member);
                    }
                    if views.take(i + 1).contains(member) && member != views[i as int] {
                        let k = views.take(i + 1).index_of(member);
                        assert(front[k] == member);
                    }
                }
            }
            i = i + 1;
        }
        assert(views.take(i as int) =~= views);
        members
    }

    /// This node's identifier, derived from its peer address.
    pub fn node_id(&self) -> (r: NodeId)
        ensures
            r == ids::name_based_id(vstd::utf8::encode_utf8(self.peer_addr@)),
    {
        ids::derive_id(self.peer_addr.as_str())
    }

    /// The cluster's identifier, derived from the addresses of its members.
    pub fn cluster_id(&self) -> (r: u128)
        ensures
            r == ids::name_based_id(
                vstd::utf8::encode_utf8(text::joined(text::contents(self.members@), ","@)),
            ),
    {
        ids::derive_id(text::join(&self.members, ",").as_str())
    }

    /// The addresses of the other members by their identifiers, which are
    /// derived from their peer addresses.
    pub fn peer_addresses(&self) -> (r: HashMap<NodeId, String>)
        ensures
            map_contents(r@) == peer_map(
                text::contents(self.members@),
                member_ids(text::contents(self.members@)),
                self.peer_addr@,
                self.members@.len() as int,
            ),
    {
        let ghost views = text::contents(self.members@);
        let mut derived: Vec<NodeId> = Vec::new();
        let mut i: usize = 0;
        while i < self.members.len()
            invariant
                views == text::contents(self.members@),
                i <= self.members@.len(),
                derived@ == member_ids(views).take(i as int),
            decreases self.members@.len() - i,
        {
            assert(views[i as int] == self.members@[i as int]@);
            derived.push(ids::derive_id(self.members[i].as_str()));
            i = i + 1;
            assert(derived@ =~= member_ids(views).take(i as int));
        }
        assert(member_ids(views).take(i as int) =~= member_ids(views));
        self.addresses_under(&derived)
    }

    /// The addresses of the other members under given identifiers, one for each
    /// member. Of two members with the same identifier the later one counts.
    pub fn addresses_under(&self, derived: &Vec<NodeId>) -> (r: HashMap<NodeId, String>)
        requires
            derived@.len() == self.members@.len(),
        ensures
            map_contents(r@) == peer_map(
                text::contents(self.members@),
                derived@,
                self.peer_addr@,
                self.members@.len() as int,
            ),
    {
        let ghost views = text::contents(self.members@);
        let mut peers: HashMap<NodeId, String> = HashMap::new();
        let mut i: usize = 0;
        assert(map_contents(peers@) =~= Map::empty());
        while i < self.members.len()
            invariant
                views == text::contents(self.members@),
                derived@.len() == self.members@.len(),
                i <= self.members@.len(),
                map_contents(peers@) == peer_map(views, derived@, self.peer_addr@, i as int),
            decreases self.members@.len() - i,
        {
            assert(views[i as int] == self.members@[i as int]@);
            if self.members[i] != self.peer_addr {
                let ghost known = map_contents(peers@);
                let id = derived[i];
                let address = text::prefixed("http://", self.members[i].as_str());
                let ghost at = address@;
                peers.insert(id, address);
                assert(map_contents(peers@) =~= known.insert(id, at));
            }
            i = i + 1;
        }
        peers
    }
}

/// Members that are told of the same addresses agree on the cluster: their
/// lists of members are the same.
pub proof fn law_members_agree_on_the_cluster(a: Seq<Seq<char>>, b: Seq<Seq<char>>)
    requires
        ascending(a),
        ascending(b),
        forall|member: Seq<char>| #[trigger] a.contains(member) <==> #[trigger] b.contains(member),
    ensures
        a == b,
    decreases a.len(),
{
    if a.len() == 0 {
        if b.len() > 0 {
            assert(b.contains(b[0]));
            assert(a.contains(b[0]));
        }
        assert(a =~= b);
    } else {
        assert(a.contains(a.last()));
        assert(b.contains(a.last()));
        assert(b.contains(b.last()));
        assert(a.contains(b.last()));
        let i = a.index_of(b.last());
        let j = b.index_of(a.last());
        if i < a.len() - 1 && j < b.len() - 1 {
            assert(before(a[i], a[a.len() - 1]));
            assert(before(b[j], b[b.len() - 1]));
            lemma_before_total(a.last(), b.last());
        }
        assert(a.last() == b.last());
        let front_a = a.drop_last();
        let front_b = b.drop_last();
        assert forall|member: Seq<char>| #[trigger] front_a.contains(member)
            <==> #[trigger] front_b.contains(member) by {
            lemma_before_irreflexive(a.last());
            if front_a.contains(member) {
                let k = front_a.index_of(member);
                assert(a[k] == member);
                assert(before(a[k], a[a.len() - 1]));
                assert(a.contains(member));
                assert(b.contains(member));
                let m = b.index_of(member);
                assert(m < b.len() - 1);
                assert(front_b[m] == member);
            }
            if front_b.contains(member) {
                let k = front_b.index_of(member);
                assert(b[k] == member);
                assert(before(b[k], b[b.len() - 1]));
                assert(b.contains(member));
                assert(a.contains(member));
                let m = a.index_of(member);
                assert(m < a.len() - 1);
                assert(front_a[m] == member);
            }
        }
        assert forall|i: int, j: int| 0 <= i < j < front_a.len() implies before(
            #[trigger] front_a[i],
            #[trigger] front_a[j],
        ) by {
            assert(before(a[i], a[j]));
        }
        assert forall|i: int, j: int| 0 <= i < j < front_b.len() implies before(
            #[trigger] front_b[i],
            #[trigger] front_b[j],
        ) by {
            assert(before(b[i], b[j]));
        }
        law_members_agree_on_the_cluster(front_a, front_b);
        assert(a =~= front_a.push(a.last()));
        assert(b =~= front_b.push(b.last()));
    }
}

// ------------------------------------------------------------ what arguments say

proof fn lemma_read_on(settings: Settings, args: Seq<Seq<char>>, more: Seq<Seq<char>>, i: int)
    requires
        0 <= i <= args.len(),
        flags_have_values(args, i),
    ensures
        settings.read(args + more, i) == settings.read(args, i).read(
            args + more,
            args.len() as int,
        ),
        flags_have_values(args + more, i) == flags_have_values(args + more, args.len() as int),
    decreases args.len() - i,
{
    if i < args.len() {
        assert((args + more)[i] == args[i]);
        if is_flag(args[i]) {
            assert((args + more)[i + 1] == args[i + 1]);
            lemma_read_on(settings.with_flag(args[i], args[i + 1]), args, more, i + 2);
        } else {
            lemma_read_on(
                Settings { unknown: settings.unknown.push(args[i]), ..settings },
                args,
                more,
                i + 1,
            );
        }
    }
}

/// Each flag sets what it says and nothing else, and the last value of a flag
/// counts, except that every address to join is taken in; whatever is no flag is
/// handed back. Without arguments the defaults stand.
pub proof fn law_last_argument_is_taken_in(args: Seq<Seq<char>>, value: Seq<char>)
    requires
        flags_have_values(args, 0),
    ensures
        ({
            let said = Settings::defaults().read(args, 0);
            let dir = Settings::defaults().read(args + seq!["--dir"@, value], 0);
            let client = Settings::defaults().read(args + seq!["--client"@, value], 0);
            let peer = Settings::defaults().read(args + seq!["--peer"@, value], 0);
            let join = Settings::defaults().read(args + seq!["--join"@, value], 0);
            let lone = Settings::defaults().read(args + seq![value], 0);
            &&& dir == (Settings { dir: value, ..said })
            &&& client == (Settings { client_addr: value, ..said })
            &&& peer == (Settings { peer_addr: value, ..said })
            &&& join == (Settings { joins: said.joins.push(value), ..said })
            &&& value != "--dir"@ && value != "--client"@ && value != "--peer"@ && value
                != "--join"@ ==> lone == (Settings { unknown: said.unknown.push(value), ..said })
            &&& args.len() == 0 ==> said.dir == "data"@ && said.client_addr == "127.0.0.1:5000"@
                && said.peer_addr == "127.0.0.1:6000"@ && said.joins.len() == 0
                && said.unknown.len() == 0
        }),
{
    reveal_strlit("--dir");
    reveal_strlit("--client");
    reveal_strlit("--peer");
    reveal_strlit("--join");
    let none = Settings::defaults();
    assert("--dir"@.len() == 5 && "--client"@.len() == 8 && "--peer"@.len() == 6);
    assert("--join"@[2] != "--peer"@[2]);
    lemma_one_flag(args, "--dir"@, value);
    lemma_one_flag(args, "--client"@, value);
    lemma_one_flag(args, "--peer"@, value);
    lemma_one_flag(args, "--join"@, value);
    if !is_flag(value) {
        let lone = seq![value];
        lemma_read_on(none, args, lone, 0);
        assert((args + lone)[args.len() as int] == value);
        reveal_with_fuel(Settings::read, 3);
    }
}

proof fn lemma_one_flag(args: Seq<Seq<char>>, flag: Seq<char>, value: Seq<char>)
    requires
        flags_have_values(args, 0),
        is_flag(flag),
    ensures
        Settings::defaults().read(args + seq![flag, value], 0) == Settings::defaults().read(
            args,
            0,
        ).with_flag(flag, value),
        flags_have_values(args + seq![flag, value], 0),
{
    let more = seq![flag, value];
    let n = args.len() as int;
    lemma_read_on(Settings::defaults(), args, more, 0);
    assert((args + more)[n] == flag);
    assert((args + more)[n + 1] == value);
    reveal_with_fuel(Settings::read, 3);
    reveal_with_fuel(flags_have_values, 3);
}

/// Arguments are in order as long as no flag stands at the end without its value;
/// anything may stand where a value is due.
pub proof fn law_flag_at_the_end_lacks_its_value(
    args: Seq<Seq<char>>,
    flag: Seq<char>,
    value: Seq<char>,
)
    requires
        flags_have_values(args, 0),
        flag == "--dir"@ || flag == "--client"@ || flag == "--peer"@ || flag == "--join"@,
    ensures
        !flags_have_values(args + seq![flag], 0),
        flags_have_values(args + seq![flag, value], 0),
        flags_have_values(Seq::empty(), 0),
        value != "--dir"@ && value != "--client"@ && value != "--peer"@ && value != "--join"@
            ==> flags_have_values(args + seq![value], 0),
{
    lemma_one_flag(args, flag, value);
    let n = args.len() as int;
    lemma_read_on(Settings::defaults(), args, seq![flag], 0);
    assert((args + seq![flag])[n] == flag);
    lemma_read_on(Settings::defaults(), args, seq![value], 0);
    assert((args + seq![value])[n] == value);
    reveal_with_fuel(flags_have_values, 3);
}

/// Whether two texts are the same up to character `i`, where `a` ends or has the
/// lower one.
pub open spec fn parts_at(a: Seq<char>, b: Seq<char>, i: int) -> bool {
    &&& 0 <= i <= a.len()
    &&& i < b.len()
    &&& forall|j: int| 0 <= j < i ==> #[trigger] a[j] == b[j]
    &&& i == a.len() || a[i] < b[i]
}

/// The order of members is that of their addresses as texts: at the first character
/// where two differ, the lower one comes first, and the shorter one if there is no
/// such character.
pub proof fn law_order_is_that_of_texts(a: Seq<char>, b: Seq<char>)
    ensures
        before(a, b) <==> exists|i: int| #[trigger] parts_at(a, b, i),
    decreases a.len(),
{
    if b.len() > 0 && a.len() > 0 {
        let ra = a.skip(1);
        let rb = b.skip(1);
        law_order_is_that_of_texts(ra, rb);
        if a[0] < b[0] {
            assert(parts_at(a, b, 0));
        }
        if a[0] == b[0] && before(ra, rb) {
            let i = choose|i: int| #[trigger] parts_at(ra, rb, i);
            assert forall|j: int| 0 <= j < i + 1 implies #[trigger] a[j] == b[j] by {
                if j > 0 {
                    assert(ra[j - 1] == rb[j - 1]);
                }
            }
            assert(parts_at(a, b, i + 1));
        }
        if exists|i: int| #[trigger] parts_at(a, b, i) {
            let i = choose|i: int| #[trigger] parts_at(a, b, i);
            if i > 0 {
                assert(a[0] == b[0]);
                assert forall|j: int| 0 <= j < i - 1 implies #[trigger] ra[j] == rb[j] by {
                    assert(a[j + 1] == b[j + 1]);
                }
                assert(parts_at(ra, rb, i - 1));
            }
        }
    } else if b.len() > 0 {
        assert(parts_at(a, b, 0));
    }
}

/// A node's members are itself and every address that it was told to join, each
/// once, and nobody else; the rest of its configuration is what the arguments say.
pub proof fn law_members_are_all_that_join(settings: Settings, config: Config, joined: Seq<char>)
    requires
        configures(settings, config),
    ensures
        config.dir@ == settings.dir,
        config.client_addr@ == settings.client_addr,
        config.peer_addr@ == settings.peer_addr,
        exists|i: int|
            0 <= i < config.members@.len() && (#[trigger] config.members@[i])@
                == settings.peer_addr,
        settings.joins.contains(joined) ==> exists|i: int|
            0 <= i < config.members@.len() && (#[trigger] config.members@[i])@ == joined,
        forall|i: int|
            0 <= i < config.members@.len() ==> settings.joins.contains(
                (#[trigger] config.members@[i])@,
            ) || config.members@[i]@ == settings.peer_addr,
        forall|i: int, j: int|
            0 <= i < j < config.members@.len() ==> (#[trigger] config.members@[i])@ != (
            #[trigger] config.members@[j])@,
{
    let views = text::contents(config.members@);
    assert forall|member: Seq<char>| #[trigger] views.contains(member) implies exists|i: int|
        0 <= i < config.members@.len() && (#[trigger] config.members@[i])@ == member by {
        let i = views.index_of(member);
        assert(config.members@[i]@ == member);
    }
    assert(views.contains(settings.peer_addr));
    if settings.joins.contains(joined) {
        assert(views.contains(joined));
    }
    assert forall|i: int| 0 <= i < config.members@.len() implies settings.joins.contains(
        (#[trigger] config.members@[i])@,
    ) || config.members@[i]@ == settings.peer_addr by {
        assert(views[i] == config.members@[i]@);
        assert(views.contains(views[i]));
    }
    assert forall|i: int, j: int| 0 <= i < j < config.members@.len() implies (
    #[trigger] config.members@[i])@ != (#[trigger] config.members@[j])@ by {
        assert(before(views[i], views[j]));
        lemma_before_irreflexive(views[i]);
    }
}

proof fn lemma_peer_map(
    members: Seq<Seq<char>>,
    derived: Seq<u128>,
    own: Seq<char>,
    n: int,
    i: int,
)
    requires
        0 <= i < n <= members.len(),
        members.len() == derived.len(),
        derived.no_duplicates(),
    ensures
        ({
            let peers = peer_map(members, derived, own, n);
            &&& peers.contains_key(derived[i]) <==> members[i] != own
            &&& members[i] != own ==> peers[derived[i]] == "http://"@ + members[i]
        }),
    decreases n,
{
    if i < n - 1 {
        lemma_peer_map(members, derived, own, n - 1, i);
        assert(derived[i] != derived[n - 1]);
    } else {
        lemma_later_is_not_there(members, derived, own, n - 1, i);
    }
}

proof fn lemma_later_is_not_there(
    members: Seq<Seq<char>>,
    derived: Seq<u128>,
    own: Seq<char>,
    n: int,
    i: int,
)
    requires
        n <= i < members.len(),
        members.len() == derived.len(),
        derived.no_duplicates(),
    ensures
        !peer_map(members, derived, own, n).contains_key(derived[i]),
    decreases n,
{
    if n > 0 {
        lemma_later_is_not_there(members, derived, own, n - 1, i);
        assert(derived[i] != derived[n - 1]);
    }
}

/// Every other member can be reached, under its identifier, at its own address; a
/// node does not list itself, nor anybody who is not a member.
pub proof fn law_every_other_member_has_its_address(
    members: Seq<Seq<char>>,
    derived: Seq<u128>,
    own: Seq<char>,
    i: int,
    id: u128,
)
    requires
        0 <= i < members.len(),
        members.len() == derived.len(),
        derived.no_duplicates(),
    ensures
        ({
            let peers = peer_map(members, derived, own, members.len() as int);
            &&& members[i] != own ==> peers.contains_key(derived[i]) && peers[derived[i]]
                == "http://"@ + members[i]
            &&& members[i] == own ==> !peers.contains_key(derived[i])
            &&& !derived.contains(id) ==> !peers.contains_key(id)
        }),
{
    lemma_peer_map(members, derived, own, members.len() as int, i);
    if !derived.contains(id) {
        lemma_stranger(members, derived, own, members.len() as int, id);
    }
}

proof fn lemma_stranger(
    members: Seq<Seq<char>>,
    derived: Seq<u128>,
    own: Seq<char>,
    n: int,
    id: u128,
)
    requires
        n <= derived.len(),
        !derived.contains(id),
    ensures
        !peer_map(members, derived, own, n).contains_key(id),
    decreases n,
{
    if n > 0 {
        lemma_stranger(members, derived, own, n - 1, id);
        assert(derived[n - 1] != id);
    }
}

/// A member's identifier is derived from its address and from nothing else, so that
/// every member derives the same one.
pub proof fn law_identifier_is_derived_from_the_address(members: Seq<Seq<char>>, i: int)
    requires
        0 <= i < members.len(),
    ensures
        member_ids(members).len() == members.len(),
        member_ids(members)[i] == ids::name_based_id(vstd::utf8::encode_utf8(members[i])),
{
}

/// The contents of a map of texts are those of each, key by key.
pub proof fn law_map_contents_are_those_of_each(m: Map<NodeId, String>, id: u128)
    ensures
        map_contents(m).contains_key(id) <==> m.contains_key(id),
        m.contains_key(id) ==> map_contents(m)[id] == m[id]@,
{
}

} // verus!
