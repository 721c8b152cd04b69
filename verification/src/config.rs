//! Project-to-rooms resolution: a store of per-project room lists and
//! secrets, with a process-wide default room and global secret. Built
//! once from already-parsed configuration, read-only afterward.

use vstd::prelude::*;
use vstd::slice::slice_subrange;
use crate::aliases::UsernameAliases;

verus! {

/// Room lists and optional secret override for one project.
pub struct RoomConfiguration {
    pub rooms: Vec<String>,
    pub simple_rooms: Vec<String>,
    pub secret: Option<String>,
}

/// Mathematical shape of a [`RoomConfiguration`].
pub ghost struct RoomConfigView {
    pub rooms: Seq<Seq<char>>,
    pub simple_rooms: Seq<Seq<char>>,
    pub secret: Option<Seq<char>>,
}

impl View for RoomConfiguration {
    type V = RoomConfigView;

    open spec fn view(&self) -> RoomConfigView {
        RoomConfigView {
            rooms: self.rooms.deep_view(),
            simple_rooms: self.simple_rooms.deep_view(),
            secret: self.secret.deep_view(),
        }
    }
}

/// Resolution result: a read-only view borrowing from the store.
pub struct RoomConfigurationRef<'a> {
    pub rooms: &'a [String],
    pub simple_rooms: &'a [String],
    pub secret: &'a str,
}

/// What `resolve` yields, as mathematical values.
pub ghost struct ResolvedView {
    pub rooms: Seq<Seq<char>>,
    pub simple_rooms: Seq<Seq<char>>,
    pub secret: Seq<char>,
}

/// The project names of `s` are pairwise distinct.
pub open spec fn distinct_keys(s: Seq<(String, RoomConfiguration)>) -> bool {
    forall|i: int, j: int| 0 <= i < j < s.len() ==> s[i].0@ != s[j].0@
}

/// Some entry of `s` carries the project name `name`.
pub open spec fn has_key(s: Seq<(String, RoomConfiguration)>, name: Seq<char>) -> bool {
    exists|i: int| 0 <= i < s.len() && s[i].0@ == name
}

/// The mapping that a list of entries denotes, later entries winning
/// over earlier ones with the same project name.
pub open spec fn pairs_to_map(s: Seq<(String, RoomConfiguration)>) -> Map<
    Seq<char>,
    RoomConfigView,
>
    decreases s.len(),
{
    if s.len() == 0 {
        Map::empty()
    } else {
        pairs_to_map(s.drop_last()).insert(s.last().0@, s.last().1@)
    }
}

/// The mapping's domain is exactly the set of project names in the list.
pub proof fn lemma_pairs_to_map_domain(s: Seq<(String, RoomConfiguration)>)
    ensures
        forall|k: Seq<char>| #[trigger] pairs_to_map(s).contains_key(k) <==> has_key(s, k),
    decreases s.len(),
{
    if s.len() == 0 {
    } else {
        lemma_pairs_to_map_domain(s.drop_last());
        assert forall|k: Seq<char>| #[trigger] pairs_to_map(s).contains_key(k) <==> has_key(
            s,
            k,
        ) by {
            if pairs_to_map(s).contains_key(k) {
                if k == s.last().0@ {
                    assert(s[s.len() - 1].0@ == k);
                } else {
                    assert(pairs_to_map(s.drop_last()).contains_key(k));
                    assert(has_key(s.drop_last(), k));
                    let i = choose|i: int| 0 <= i < s.drop_last().len() && s.drop_last()[i].0@ == k;
                    assert(s.drop_last()[i] == s[i]);
                    assert(s[i].0@ == k);
                }
            }
            if has_key(s, k) {
                let i = choose|i: int| 0 <= i < s.len() && s[i].0@ == k;
                if i < s.len() - 1 {
                    assert(s.drop_last()[i] == s[i]);
                    assert(has_key(s.drop_last(), k));
                    assert(pairs_to_map(s.drop_last()).contains_key(k));
                    assert(pairs_to_map(s).contains_key(k));
                } else {
                    assert(k == s.last().0@);
                    assert(pairs_to_map(s).contains_key(k));
                }
            }
        }
    }
}

/// Under distinct names, each entry's name maps to that entry's value.
pub proof fn lemma_pairs_to_map_index(s: Seq<(String, RoomConfiguration)>, i: int)
    requires
        distinct_keys(s),
        0 <= i < s.len(),
    ensures
        pairs_to_map(s).contains_key(s[i].0@),
        pairs_to_map(s)[s[i].0@] == s[i].1@,
    decreases s.len(),
{
    if i == s.len() - 1 {
    } else {
        assert(distinct_keys(s.drop_last()));
        lemma_pairs_to_map_index(s.drop_last(), i);
        assert(s.drop_last()[i] == s[i]);
        assert(s[i].0@ != s.last().0@);
    }
}

/// Relies on str's PartialEq: string slices compare equal exactly when
/// their character sequences are equal.
#[verifier::external_body]
fn str_eq(a: &str, b: &str) -> (r: bool)
    ensures
        r == (a@ == b@),
{
    a == b
}

/// Why construction of a [`Config`] is refused.
#[derive(PartialEq, Eq, Structural)]
pub enum ConfigError {
    /// Neither a default room nor any project configuration was supplied.
    NoRoomsConfigured,
}

/// The construction-time snapshot the routing core works from: the
/// project map, the default room, the global secret, and the alias
/// table, beside the scalar connection values the collaborators need.
pub struct Config {
    pub server: String,
    pub user: String,
    pub password: String,
    pub secret: String,
    pub port: u16,
    default_room_list: Vec<String>,
    room_configuration: Vec<(String, RoomConfiguration)>,
    pub username_aliases: UsernameAliases,
}

impl Config {
    /// Internal representation invariant: project names are distinct and
    /// the default room list holds at most one room.
    pub closed spec fn wf(&self) -> bool {
        &&& distinct_keys(self.room_configuration@)
        &&& self.default_room_list@.len() <= 1
    }

    /// The project-name-to-configuration mapping.
    pub closed spec fn projects(&self) -> Map<Seq<char>, RoomConfigView> {
        pairs_to_map(self.room_configuration@)
    }

    /// The process-wide default room, if one was configured.
    pub closed spec fn default_room(&self) -> Option<Seq<char>> {
        if self.default_room_list@.len() == 0 {
            None
        } else {
            Some(self.default_room_list@[0]@)
        }
    }

    /// The process-wide secret used absent a project override.
    pub closed spec fn global_secret(&self) -> Seq<char> {
        self.secret@
    }

    /// The server endpoint, as handed to construction.
    pub closed spec fn server_view(&self) -> Seq<char> {
        self.server@
    }

    /// The bot's login name, as handed to construction.
    pub closed spec fn user_view(&self) -> Seq<char> {
        self.user@
    }

    /// The bot's password, as handed to construction.
    pub closed spec fn password_view(&self) -> Seq<char> {
        self.password@
    }

    /// The listening port.
    pub closed spec fn port_view(&self) -> u16 {
        self.port
    }

    /// The alias table's contents.
    pub closed spec fn aliases_view(&self) -> Map<Seq<char>, Seq<char>> {
        self.username_aliases@
    }

    /// The two-tier resolution rule: an exact project match yields its
    /// rooms and its secret override (global secret when none); any
    /// other name yields the default room (or no room) and the global
    /// secret.
    pub open spec fn resolve_spec(&self, name: Seq<char>) -> ResolvedView {
        if self.projects().contains_key(name) {
            let rc = self.projects()[name];
            ResolvedView {
                rooms: rc.rooms,
                simple_rooms: rc.simple_rooms,
                secret: match rc.secret {
                    Some(s) => s,
                    None => self.global_secret(),
                },
            }
        } else {
            ResolvedView {
                rooms: match self.default_room() {
                    Some(r) => seq![r],
                    None => Seq::empty(),
                },
                simple_rooms: Seq::empty(),
                secret: self.global_secret(),
            }
        }
    }
}

/// Replacing an entry by one with the same project name keeps the names
/// distinct and overwrites that name's value in the denoted mapping.
proof fn lemma_map_of_updated(
    s: Seq<(String, RoomConfiguration)>,
    t: Seq<(String, RoomConfiguration)>,
    i: int,
)
    requires
        distinct_keys(s),
        0 <= i < s.len(),
        t.len() == s.len(),
        forall|j: int| 0 <= j < s.len() && j != i ==> t[j] == s[j],
        t[i].0@ == s[i].0@,
    ensures
        distinct_keys(t),
        pairs_to_map(t) == pairs_to_map(s).insert(t[i].0@, t[i].1@),
{
    assert(forall|j: int| 0 <= j < t.len() ==> t[j].0@ == s[j].0@);
    assert(distinct_keys(t));
    lemma_pairs_to_map_domain(s);
    lemma_pairs_to_map_domain(t);
    let k = t[i].0@;
    let v = t[i].1@;
    assert forall|x: Seq<char>| has_key(t, x) <==> has_key(s, x) by {
        if has_key(t, x) {
            let j = choose|j: int| 0 <= j < t.len() && t[j].0@ == x;
            assert(s[j].0@ == x);
        }
        if has_key(s, x) {
            let j = choose|j: int| 0 <= j < s.len() && s[j].0@ == x;
            assert(t[j].0@ == x);
        }
    }
    assert(has_key(s, k)) by {
        assert(s[i].0@ == k);
    }
    assert forall|x: Seq<char>| #[trigger] pairs_to_map(t).contains_key(x) implies pairs_to_map(
        s,
    ).insert(k, v).contains_key(x) && pairs_to_map(t)[x] == pairs_to_map(s).insert(k, v)[x] by {
        let j = choose|j: int| 0 <= j < t.len() && t[j].0@ == x;
        lemma_pairs_to_map_index(t, j);
        if x == k {
            if j != i {
                if j < i {
                    assert(t[j].0@ != t[i].0@);
                } else {
                    assert(t[i].0@ != t[j].0@);
                }
                assert(false);
            }
            assert(pairs_to_map(t)[x] == v);
        } else {
            assert(j != i);
            lemma_pairs_to_map_index(s, j);
            assert(t[j] == s[j]);
        }
    }
    assert(pairs_to_map(t) =~= pairs_to_map(s).insert(k, v));
}

/// Inserts one project entry into the list, a later entry for the same
/// name overwriting the earlier one.
fn insert_project(list: &mut Vec<(String, RoomConfiguration)>, key: String, rc: RoomConfiguration)
    requires
        distinct_keys(old(list)@),
    ensures
        distinct_keys(final(list)@),
        pairs_to_map(final(list)@) == pairs_to_map(old(list)@).insert(key@, rc@),
{
    let ghost s = old(list)@;
    let mut i: usize = 0;
    while i < list.len()
        invariant
            s == old(list)@,
            list@ == s,
            distinct_keys(s),
            i <= s.len(),
            forall|j: int| 0 <= j < i ==> s[j].0@ != key@,
        decreases s.len() - i,
    {
        if str_eq(list[i].0.as_str(), key.as_str()) {
            let ghost key_view = key@;
            let ghost rc_view = rc@;
            list[i] = (key, rc);
            proof {
                assert(list@[i as int].0@ == key_view);
                assert(list@[i as int].1@ == rc_view);
                lemma_map_of_updated(s, list@, i as int);
                assert(pairs_to_map(list@) == pairs_to_map(s).insert(key_view, rc_view));
            }
            return ;
        }
        i += 1;
    }
    list.push((key, rc));
    proof {
        assert(list@.drop_last() =~= s);
        assert(list@.last() == (key, rc));
        assert forall|a: int, b: int| 0 <= a < b < list@.len() implies list@[a].0@
            != list@[b].0@ by {
            if b < s.len() {
                assert(s[a].0@ != s[b].0@);
            } else {
                assert(s[a].0@ != key@);
            }
        }
    }
}

/// Finds the entry for `name`, if the list carries one.
fn find_project<'a>(list: &'a Vec<(String, RoomConfiguration)>, name: &str) -> (r: Option<
    &'a RoomConfiguration,
>)
    requires
        distinct_keys(list@),
    ensures
        match r {
            Some(rc) => pairs_to_map(list@).contains_key(name@) && rc@ == pairs_to_map(
                list@,
            )[name@],
            None => !pairs_to_map(list@).contains_key(name@),
        },
{
    let mut i: usize = 0;
    while i < list.len()
        invariant
            distinct_keys(list@),
            i <= list@.len(),
            forall|j: int| 0 <= j < i ==> list@[j].0@ != name@,
        decreases list@.len() - i,
    {
        let pair = &list[i];
        if str_eq(pair.0.as_str(), name) {
            proof {
                lemma_pairs_to_map_index(list@, i as int);
            }
            return Some(&pair.1);
        }
        i += 1;
    }
    proof {
        lemma_pairs_to_map_domain(list@);
    }
    None
}

/// The mapping denoted by an optional parsed project list, later
/// entries winning over earlier ones with the same name.
pub open spec fn projects_of(list: Option<Vec<(String, RoomConfiguration)>>) -> Map<
    Seq<char>,
    RoomConfigView,
> {
    match list {
        None => Map::empty(),
        Some(v) => pairs_to_map(v@),
    }
}

impl Config {
    /// Builds the construction-time snapshot from already-parsed
    /// configuration values. Fails exactly when neither a default room
    /// nor any project configuration was supplied; the port falls back
    /// to 3030 when unspecified. Duplicate project names in the parsed
    /// list are resolved by letting the later entry win.
    pub fn new(
        server: String,
        user: String,
        password: String,
        secret: String,
        port: Option<u16>,
        default_room_name: Option<String>,
        room_configuration: Option<Vec<(String, RoomConfiguration)>>,
        username_aliases: UsernameAliases,
    ) -> (r: Result<Config, ConfigError>)
        ensures
            match r {
                Ok(c) => {
                    &&& default_room_name.is_some() || room_configuration.is_some()
                    &&& c.wf()
                    &&& c.server_view() == server@
                    &&& c.user_view() == user@
                    &&& c.password_view() == password@
                    &&& c.global_secret() == secret@
                    &&& c.port_view() == (match port {
                        Some(p) => p,
                        None => 3030u16,
                    })
                    &&& c.default_room() == default_room_name.deep_view()
                    &&& c.projects() == projects_of(room_configuration)
                    &&& c.aliases_view() == username_aliases@
                },
                Err(e) => {
                    &&& default_room_name.is_none()
                    &&& room_configuration.is_none()
                    &&& e == ConfigError::NoRoomsConfigured
                },
            },
    {
        if default_room_name.is_none() && room_configuration.is_none() {
            return Err(ConfigError::NoRoomsConfigured);
        }
        let default_room_list: Vec<String> = match default_room_name {
            Some(room) => {
                let mut v: Vec<String> = Vec::new();
                v.push(room);
                v
            },
            None => Vec::new(),
        };
        let mut entries: Vec<(String, RoomConfiguration)> = Vec::new();
        match room_configuration {
            Some(mut list) => {
                let ghost orig = list@;
                while list.len() > 0
                    invariant
                        distinct_keys(entries@),
                        list@.len() <= orig.len(),
                        list@ == orig.skip(orig.len() - list@.len()),
                        pairs_to_map(entries@) == pairs_to_map(
                            orig.take(orig.len() - list@.len()),
                        ),
                    decreases list@.len(),
                {
                    let ghost n = orig.len() - list@.len();
                    let pair = list.remove(0);
                    proof {
                        assert(pair == orig[n]);
                    }
                    insert_project(&mut entries, pair.0, pair.1);
                    proof {
                        assert(orig.take(n + 1).drop_last() =~= orig.take(n));
                        assert(orig.take(n + 1).last() == orig[n]);
                        assert(list@ =~= orig.skip(orig.len() - list@.len()));
                    }
                }
                proof {
                    assert(orig.take(orig.len() - list@.len()) =~= orig);
                }
            },
            None => {},
        }
        Ok(
            Config {
                server,
                user,
                password,
                secret,
                port: match port {
                    Some(p) => p,
                    None => 3030,
                },
                default_room_list,
                room_configuration: entries,
                username_aliases,
            },
        )
    }

    /// Resolves a project name to the rooms to notify and the secret to
    /// validate against. Total: every name yields a result.
    pub fn rooms_for<'a>(&'a self, name: &str) -> (r: RoomConfigurationRef<'a>)
        requires
            self.wf(),
        ensures
            r.rooms.deep_view() == self.resolve_spec(name@).rooms,
            r.simple_rooms.deep_view() == self.resolve_spec(name@).simple_rooms,
            r.secret@ == self.resolve_spec(name@).secret,
    {
        match find_project(&self.room_configuration, name) {
            Some(rc) => {
                let secret: &str = match &rc.secret {
                    Some(s) => s.as_str(),
                    None => self.secret.as_str(),
                };
                let result = RoomConfigurationRef {
                    rooms: rc.rooms.as_slice(),
                    simple_rooms: rc.simple_rooms.as_slice(),
                    secret,
                };
                proof {
                    assert(result.rooms.deep_view() =~= rc@.rooms);
                    assert(result.simple_rooms.deep_view() =~= rc@.simple_rooms);
                }
                result
            },
            None => {
                let result = RoomConfigurationRef {
                    rooms: self.default_room_list.as_slice(),
                    simple_rooms: slice_subrange(self.default_room_list.as_slice(), 0, 0),
                    secret: self.secret.as_str(),
                };
                proof {
                    assert(result.simple_rooms.deep_view() =~= Seq::<Seq<char>>::empty());
                    match self.default_room() {
                        Some(room) => {
                            assert(result.rooms.deep_view() =~= seq![room]);
                        },
                        None => {
                            assert(result.rooms.deep_view() =~= Seq::<Seq<char>>::empty());
                        },
                    }
                }
                result
            },
        }
    }
}

/// Tells whether `v` holds a string equal to `s`.
fn contains_str(v: &Vec<String>, s: &str) -> (r: bool)
    ensures
        r == v.deep_view().contains(s@),
{
    let mut i: usize = 0;
    while i < v.len()
        invariant
            i <= v@.len(),
            forall|j: int| 0 <= j < i ==> v.deep_view()[j] != s@,
        decreases v@.len() - i,
    {
        if str_eq(v[i].as_str(), s) {
            proof {
                assert(v.deep_view()[i as int] == s@);
            }
            return true;
        }
        i += 1;
    }
    false
}

/// Appending a string to a list adds it to the set of strings held.
proof fn lemma_push_to_set(s: Seq<Seq<char>>, x: Seq<char>)
    ensures
        s.push(x).to_set() =~= s.to_set().insert(x),
{
    assert forall|y: Seq<char>| #[trigger] s.push(x).contains(y) <==> (s.contains(y) || y
        == x) by {
        if s.push(x).contains(y) {
            let i = choose|i: int| 0 <= i < s.push(x).len() && s.push(x)[i] == y;
            if i < s.len() {
                assert(s[i] == y);
            }
        }
        if s.contains(y) {
            let i = choose|i: int| 0 <= i < s.len() && s[i] == y;
            assert(s.push(x)[i] == y);
        }
        if y == x {
            assert(s.push(x)[s.len() as int] == y);
        }
    }
}

/// Appends `s` unless an equal string is already held, keeping the list
/// free of duplicates.
fn push_unique(v: &mut Vec<String>, s: &String)
    requires
        old(v).deep_view().no_duplicates(),
    ensures
        final(v).deep_view().no_duplicates(),
        final(v).deep_view().to_set() == old(v).deep_view().to_set().insert(s@),
{
    if !contains_str(v, s.as_str()) {
        v.push(s.clone());
        proof {
            assert(v.deep_view() =~= old(v).deep_view().push(s@));
            lemma_push_to_set(old(v).deep_view(), s@);
            assert forall|a: int, b: int|
                0 <= a < b < v.deep_view().len() implies v.deep_view()[a]
                != v.deep_view()[b] by {
                if b == v.deep_view().len() - 1 {
                    assert(!old(v).deep_view().contains(s@));
                    assert(old(v).deep_view()[a] != s@);
                }
            }
        }
    } else {
        proof {
            assert(v.deep_view().to_set().contains(s@));
            assert(v.deep_view().to_set() =~= v.deep_view().to_set().insert(s@));
        }
    }
}

/// Appends every string of `items` not already held.
fn push_all_unique(v: &mut Vec<String>, items: &Vec<String>)
    requires
        old(v).deep_view().no_duplicates(),
    ensures
        final(v).deep_view().no_duplicates(),
        final(v).deep_view().to_set() == old(v).deep_view().to_set().union(
            items.deep_view().to_set(),
        ),
{
    let mut i: usize = 0;
    while i < items.len()
        invariant
            v.deep_view().no_duplicates(),
            i <= items@.len(),
            v.deep_view().to_set() == old(v).deep_view().to_set().union(
                items.deep_view().take(i as int).to_set(),
            ),
        decreases items@.len() - i,
    {
        push_unique(v, &items[i]);
        proof {
            let taken = items.deep_view().take(i as int);
            assert(items.deep_view().take(i + 1) =~= taken.push(items.deep_view()[i as int]));
            lemma_push_to_set(taken, items.deep_view()[i as int]);
            assert(old(v).deep_view().to_set().union(taken.to_set()).insert(
                items.deep_view()[i as int],
            ) =~= old(v).deep_view().to_set().union(items.deep_view().take(i + 1).to_set()));
        }
        i += 1;
    }
    proof {
        assert(items.deep_view().take(items@.len() as int) =~= items.deep_view());
    }
}

impl Config {
    /// The set of rooms named by the first `n` project entries.
    pub closed spec fn room_set_of(s: Seq<(String, RoomConfiguration)>, n: int) -> Set<
        Seq<char>,
    > {
        Set::new(
            |room: Seq<char>|
                exists|i: int|
                    #![auto]
                    0 <= i < n && (s[i].1@.rooms.contains(room) || s[i].1@.simple_rooms.contains(
                        room,
                    )),
        )
    }

    /// Every room any project notifies, plus the default room if set:
    /// what the bot must join at startup.
    pub closed spec fn all_rooms_spec(&self) -> Set<Seq<char>> {
        Self::room_set_of(
            self.room_configuration@,
            self.room_configuration@.len() as int,
        ).union(
            match self.default_room() {
                Some(r) => set![r],
                None => Set::empty(),
            },
        )
    }

    /// Returns the deduplicated union of every project's rooms and
    /// simple rooms, plus the default room if one is configured.
    pub fn all_rooms(&self) -> (r: Vec<String>)
        requires
            self.wf(),
        ensures
            r.deep_view().to_set() == self.all_rooms_spec(),
            r.deep_view().no_duplicates(),
    {
        let ghost s = self.room_configuration@;
        let mut result: Vec<String> = Vec::new();
        proof {
            assert(result.deep_view().to_set() =~= Self::room_set_of(s, 0));
        }
        let mut i: usize = 0;
        while i < self.room_configuration.len()
            invariant
                s == self.room_configuration@,
                i <= s.len(),
                result.deep_view().no_duplicates(),
                result.deep_view().to_set() == Self::room_set_of(s, i as int),
            decreases s.len() - i,
        {
            let rc = &self.room_configuration[i].1;
            push_all_unique(&mut result, &rc.rooms);
            push_all_unique(&mut result, &rc.simple_rooms);
            proof {
                Self::lemma_room_set_step(s, i as int);
                assert(Self::room_set_of(s, i as int).union(s[i as int].1@.rooms.to_set()).union(
                    s[i as int].1@.simple_rooms.to_set(),
                ) =~= Self::room_set_of(s, i + 1));
            }
            i += 1;
        }
        if self.default_room_list.len() > 0 {
            push_unique(&mut result, &self.default_room_list[0]);
        }
        proof {
            match self.default_room() {
                Some(room) => {
                    assert(Self::room_set_of(s, s.len() as int).insert(room)
                        =~= self.all_rooms_spec());
                },
                None => {
                    assert(Self::room_set_of(s, s.len() as int) =~= self.all_rooms_spec());
                },
            }
        }
        result
    }

    /// Extending the prefix by one entry adds that entry's rooms and
    /// simple rooms to the set.
    proof fn lemma_room_set_step(s: Seq<(String, RoomConfiguration)>, n: int)
        requires
            0 <= n < s.len(),
        ensures
            Self::room_set_of(s, n + 1) =~= Self::room_set_of(s, n).union(
                s[n].1@.rooms.to_set(),
            ).union(s[n].1@.simple_rooms.to_set()),
    {
        assert forall|room: Seq<char>| #[trigger] Self::room_set_of(s, n + 1).contains(room)
            implies Self::room_set_of(s, n).union(s[n].1@.rooms.to_set()).union(
            s[n].1@.simple_rooms.to_set(),
        ).contains(room) by {
            let i = choose|i: int|
                #![auto]
                0 <= i < n + 1 && (s[i].1@.rooms.contains(room) || s[i].1@.simple_rooms.contains(
                    room,
                ));
            if i < n {
                assert(Self::room_set_of(s, n).contains(room));
            }
        }
        assert forall|room: Seq<char>|
            Self::room_set_of(s, n).union(s[n].1@.rooms.to_set()).union(
                s[n].1@.simple_rooms.to_set(),
            ).contains(room) implies #[trigger] Self::room_set_of(s, n + 1).contains(room) by {
            if Self::room_set_of(s, n).contains(room) {
                let i = choose|i: int|
                    #![auto]
                    0 <= i < n && (s[i].1@.rooms.contains(room)
                        || s[i].1@.simple_rooms.contains(room));
                assert(0 <= i < n + 1 && (s[i].1@.rooms.contains(room)
                    || s[i].1@.simple_rooms.contains(room)));
            } else {
                assert(s[n].1@.rooms.contains(room) || s[n].1@.simple_rooms.contains(room));
            }
        }
    }
}

/// Law: a project name absent from the configuration map resolves to
/// the default room as sole target (no room when unset), no simple
/// rooms, and the global secret.
pub proof fn lemma_resolve_absent(c: &Config, name: Seq<char>)
    ensures
        !c.projects().contains_key(name) ==> c.resolve_spec(name) == (ResolvedView {
            rooms: match c.default_room() {
                Some(r) => seq![r],
                None => Seq::empty(),
            },
            simple_rooms: Seq::empty(),
            secret: c.global_secret(),
        }),
{
}

/// Law: a present project's explicit secret override wins, whatever the
/// global secret holds.
pub proof fn lemma_resolve_override(c: &Config, name: Seq<char>, secret: Seq<char>)
    ensures
        (c.projects().contains_key(name) && c.projects()[name].secret == Some(secret))
            ==> c.resolve_spec(name).secret == secret,
{
}

/// Law: the rooms to join are exactly the union, over every configured
/// project, of its rooms and simple rooms, plus the default room if
/// one is set.
pub proof fn lemma_all_rooms_union(c: &Config)
    requires
        c.wf(),
    ensures
        c.all_rooms_spec() =~= Set::new(
            |room: Seq<char>|
                (exists|name: Seq<char>|
                    #[trigger] c.projects().contains_key(name) && (c.projects()[name].rooms.contains(
                        room,
                    ) || c.projects()[name].simple_rooms.contains(room))) || c.default_room()
                    == Some(room),
        ),
{
    let s = c.room_configuration@;
    lemma_pairs_to_map_domain(s);
    assert forall|room: Seq<char>| #[trigger] c.all_rooms_spec().contains(room) implies ((exists|
        name: Seq<char>,
    |
        #[trigger] c.projects().contains_key(name) && (c.projects()[name].rooms.contains(room)
            || c.projects()[name].simple_rooms.contains(room))) || c.default_room() == Some(
        room,
    )) by {
        if Config::room_set_of(s, s.len() as int).contains(room) {
            let i = choose|i: int|
                #![auto]
                0 <= i < s.len() && (s[i].1@.rooms.contains(room) || s[i].1@.simple_rooms.contains(
                    room,
                ));
            lemma_pairs_to_map_index(s, i);
            assert(c.projects().contains_key(s[i].0@) && (c.projects()[s[i].0@].rooms.contains(
                room,
            ) || c.projects()[s[i].0@].simple_rooms.contains(room)));
        }
    }
    assert forall|room: Seq<char>|
        ((exists|name: Seq<char>|
            #[trigger] c.projects().contains_key(name) && (c.projects()[name].rooms.contains(room)
                || c.projects()[name].simple_rooms.contains(room))) || c.default_room() == Some(
            room,
        )) implies #[trigger] c.all_rooms_spec().contains(room) by {
        if exists|name: Seq<char>|
            #[trigger] c.projects().contains_key(name) && (c.projects()[name].rooms.contains(room)
                || c.projects()[name].simple_rooms.contains(room)) {
            let name = choose|name: Seq<char>|
                #[trigger] c.projects().contains_key(name) && (c.projects()[name].rooms.contains(
                    room,
                ) || c.projects()[name].simple_rooms.contains(room));
            assert(has_key(s, name));
            let i = choose|i: int| 0 <= i < s.len() && s[i].0@ == name;
            lemma_pairs_to_map_index(s, i);
            assert(s[i].1@.rooms.contains(room) || s[i].1@.simple_rooms.contains(room));
            assert(Config::room_set_of(s, s.len() as int).contains(room));
        }
    }
}

} // verus!
