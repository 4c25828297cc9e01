//! The HTTP message pipeline: requests, responses, and the table that maps a
//! resource and a method to the action registered for them.

pub mod request;
pub mod response;
pub mod stream;
pub mod text;

use crate::web::response::ResponseCode;
use vstd::prelude::*;

verus! {

/// What resolving a resource and a method against a table of routes yields:
/// the action registered for exactly this pair; otherwise the status 405
/// when the resource is registered under some other method, and the status
/// 404 when it is not registered at all.
pub open spec fn resolution<A>(
    table: Map<(Seq<char>, Seq<char>), A>,
    uri: Seq<char>,
    method: Seq<char>,
) -> Result<A, nat> {
    if table.dom().contains((uri, method)) {
        Ok(table[(uri, method)])
    } else if exists|other: Seq<char>| table.dom().contains((uri, other)) {
        Err(405)
    } else {
        Err(404)
    }
}

/// After registering `action` for `uri` under `method`, resolving that pair
/// gives `action`, whatever was registered for it before; resolving `uri`
/// under a method that is not registered for it fails with 405; resolving a
/// resource that is registered under no method fails with 404; and every
/// other pair resolves as before.
pub proof fn lemma_resolution_after_insert<A>(
    table: Map<(Seq<char>, Seq<char>), A>,
    uri: Seq<char>,
    method: Seq<char>,
    action: A,
    other_uri: Seq<char>,
    other_method: Seq<char>,
)
    ensures
        resolution(table.insert((uri, method), action), uri, method) == Ok::<A, nat>(action),
        other_method != method && !table.dom().contains((uri, other_method)) ==> resolution(
            table.insert((uri, method), action),
            uri,
            other_method,
        ) == Err::<A, nat>(405),
        other_uri != uri && (forall|m: Seq<char>| !table.dom().contains((other_uri, m)))
            ==> resolution(table.insert((uri, method), action), other_uri, other_method) == Err::<
            A,
            nat,
        >(404),
        other_uri != uri ==> resolution(
            table.insert((uri, method), action),
            other_uri,
            other_method,
        ) == resolution(table, other_uri, other_method),
{
    let after = table.insert((uri, method), action);
    assert(after.dom().contains((uri, method)));
    if other_uri != uri {
        assert forall|m: Seq<char>|
            after.dom().contains((other_uri, m)) == table.dom().contains((other_uri, m)) by {}
        if exists|m: Seq<char>| table.dom().contains((other_uri, m)) {
            let m = choose|m: Seq<char>| table.dom().contains((other_uri, m));
            assert(after.dom().contains((other_uri, m)));
        }
    }
}

/// A resource is answered with 404 exactly when no method is registered for
/// it, and with 405 exactly when some method is, but not the one asked for.
pub proof fn lemma_resolution_cases<A>(
    table: Map<(Seq<char>, Seq<char>), A>,
    uri: Seq<char>,
    method: Seq<char>,
)
    ensures
        resolution(table, uri, method) is Ok <==> table.dom().contains((uri, method)),
        resolution(table, uri, method) == Err::<A, nat>(404) <==> forall|m: Seq<char>|
            !table.dom().contains((uri, m)),
        resolution(table, uri, method) == Err::<A, nat>(405) <==> !table.dom().contains(
            (uri, method),
        ) && exists|m: Seq<char>| table.dom().contains((uri, m)),
{
}

/// The routes that one registration adds: `action` for `uri` under each of `methods`.
pub open spec fn routes_of<A>(uri: Seq<char>, methods: Set<Seq<char>>, action: A) -> Map<
    (Seq<char>, Seq<char>),
    A,
> {
    Map::new(|k: (Seq<char>, Seq<char>)| k.0 == uri && methods.contains(k.1), |k| action)
}

/// The methods that a list names.
pub open spec fn method_set(methods: Seq<String>) -> Set<Seq<char>> {
    Set::new(|m: Seq<char>| exists|j: int| 0 <= j < methods.len() && (#[trigger] methods[j])@ == m)
}

/// Registering an action under one method is registering it for that pair;
/// registering it under no method registers nothing.
pub proof fn lemma_routes_of_few_methods<A>(
    table: Map<(Seq<char>, Seq<char>), A>,
    uri: Seq<char>,
    method: Seq<char>,
    action: A,
)
    ensures
        table.union_prefer_right(routes_of(uri, set![method], action)) == table.insert(
            (uri, method),
            action,
        ),
        table.union_prefer_right(routes_of(uri, Set::<Seq<char>>::empty(), action)) == table,
{
    assert(table.union_prefer_right(routes_of(uri, set![method], action)) =~= table.insert(
        (uri, method),
        action,
    ));
    assert(table.union_prefer_right(routes_of(uri, Set::<Seq<char>>::empty(), action)) =~= table);
}

/// Registering an action under several methods is registering it under the
/// first of them and then under the others, and also the other way round:
/// the order in which the methods are given does not matter, and naming a
/// method twice changes nothing.
pub proof fn lemma_routes_of_split<A>(
    table: Map<(Seq<char>, Seq<char>), A>,
    uri: Seq<char>,
    first: Set<Seq<char>>,
    others: Set<Seq<char>>,
    action: A,
)
    ensures
        table.union_prefer_right(routes_of(uri, first.union(others), action))
            == table.union_prefer_right(routes_of(uri, first, action)).union_prefer_right(
            routes_of(uri, others, action),
        ),
        table.union_prefer_right(routes_of(uri, first.union(others), action))
            == table.union_prefer_right(routes_of(uri, others, action)).union_prefer_right(
            routes_of(uri, first, action),
        ),
{
    let both = table.union_prefer_right(routes_of(uri, first.union(others), action));
    assert(both =~= table.union_prefer_right(routes_of(uri, first, action)).union_prefer_right(
        routes_of(uri, others, action),
    ));
    assert(both =~= table.union_prefer_right(routes_of(uri, others, action)).union_prefer_right(
        routes_of(uri, first, action),
    ));
}

/// One registration: an action for a resource under some methods.
struct Registration<A> {
    uri: String,
    methods: Vec<String>,
    action: A,
}

impl<A> Registration<A> {
    spec fn covers(self, uri: Seq<char>, method: Seq<char>) -> bool {
        self.uri@ == uri && method_set(self.methods@).contains(method)
    }

    spec fn routes(self) -> Map<(Seq<char>, Seq<char>), A> {
        routes_of(self.uri@, method_set(self.methods@), self.action)
    }

    /// Whether the registration names `method`.
    fn names(&self, method: &String) -> (r: bool)
        ensures
            r == method_set(self.methods@).contains(method@),
    {
        let n: usize = self.methods.len();
        let mut i: usize = 0;
        while i < n
            invariant
                i <= n,
                n == self.methods@.len(),
                forall|j: int| 0 <= j < i ==> (#[trigger] self.methods@[j])@ != method@,
            decreases n - i,
        {
            if self.methods[i] == *method {
                return true;
            }
            i += 1;
        }
        false
    }
}

/// The table that a sequence of registrations builds: a later registration
/// replaces what an earlier one set for the same resource and method.
spec fn table_of<A>(log: Seq<Registration<A>>) -> Map<(Seq<char>, Seq<char>), A>
    decreases log.len(),
{
    if log.len() == 0 {
        Map::empty()
    } else {
        table_of(log.drop_last()).union_prefer_right(log.last().routes())
    }
}

/// Whether the registration at position `j` of `log` is for `uri` and names a method.
spec fn uri_known_at<A>(log: Seq<Registration<A>>, j: int, uri: Seq<char>) -> bool {
    0 <= j < log.len() && log[j].uri@ == uri && log[j].methods@.len() > 0
}

/// Whether the registration at position `j` of `log` covers the pair.
spec fn covers_at<A>(log: Seq<Registration<A>>, j: int, uri: Seq<char>, method: Seq<char>) -> bool {
    0 <= j < log.len() && log[j].covers(uri, method)
}

/// A pair is in the table exactly when some registration covers it.
proof fn lemma_table_dom<A>(log: Seq<Registration<A>>, uri: Seq<char>, method: Seq<char>)
    ensures
        table_of(log).dom().contains((uri, method)) <==> exists|j: int|
            covers_at(log, j, uri, method),
    decreases log.len(),
{
    if log.len() > 0 {
        let front = log.drop_last();
        let last = log.len() - 1;
        lemma_table_dom(front, uri, method);
        if table_of(log).dom().contains((uri, method)) {
            if log.last().routes().dom().contains((uri, method)) {
                assert(covers_at(log, last, uri, method));
            } else {
                let j = choose|j: int| covers_at(front, j, uri, method);
                assert(covers_at(log, j, uri, method));
            }
        }
        if exists|j: int| covers_at(log, j, uri, method) {
            let j = choose|j: int| covers_at(log, j, uri, method);
            if j < last {
                assert(covers_at(front, j, uri, method));
            } else {
                assert(log.last().routes().dom().contains((uri, method)));
            }
        }
    } else {
        if exists|j: int| covers_at(log, j, uri, method) {
            let j = choose|j: int| covers_at(log, j, uri, method);
            assert(false);
        }
    }
}

/// The last registration that covers a pair decides its action.
proof fn lemma_table_value<A>(log: Seq<Registration<A>>, i: int, uri: Seq<char>, method: Seq<char>)
    requires
        covers_at(log, i, uri, method),
        forall|j: int| i < j ==> !covers_at(log, j, uri, method),
    ensures
        table_of(log).dom().contains((uri, method)),
        table_of(log)[(uri, method)] == log[i].action,
    decreases log.len(),
{
    let front = log.drop_last();
    let last = log.len() - 1;
    if i < last {
        assert(!covers_at(log, last, uri, method));
        assert(covers_at(front, i, uri, method));
        assert forall|j: int| i < j implies !covers_at(front, j, uri, method) by {
            assert(!covers_at(log, j, uri, method));
        }
        lemma_table_value(front, i, uri, method);
        assert(!log.last().routes().dom().contains((uri, method)));
    } else {
        assert(log.last().routes().dom().contains((uri, method)));
    }
}

/// The table of routes of a server. Actions are registered for a resource
/// and one or several methods; registering a pair again replaces its action.
///
/// Registrations are kept in the order in which they were made, and a lookup
/// goes by the latest one that covers the pair: an action that is registered
/// under several methods is held once.
pub struct RouteMap<A> {
    log: Vec<Registration<A>>,
}

impl<A> View for RouteMap<A> {
    type V = Map<(Seq<char>, Seq<char>), A>;

    /// The action registered for each resource and method.
    closed spec fn view(&self) -> Map<(Seq<char>, Seq<char>), A> {
        table_of(self.log@)
    }
}

impl<A> RouteMap<A> {
    /// An empty table.
    pub fn new() -> (r: RouteMap<A>)
        ensures
            r@ == Map::<(Seq<char>, Seq<char>), A>::empty(),
    {
        RouteMap { log: Vec::new() }
    }

    /// Registers `closure` for `uri` under `method`.
    pub fn insert_route(&mut self, uri: String, method: String, closure: A)
        ensures
            final(self)@ == old(self)@.insert((uri@, method@), closure),
    {
        let mut methods: Vec<String> = Vec::new();
        methods.push(method);
        let entry = Registration { uri, methods, action: closure };
        proof {
            assert(entry.methods@[0]@ == method@);
            assert(method_set(entry.methods@) =~= set![method@]);
            assert(self.log@.push(entry).drop_last() =~= self.log@);
            assert(table_of(self.log@).union_prefer_right(entry.routes()) =~= table_of(
                self.log@,
            ).insert((uri@, method@), closure));
        }
        self.log.push(entry);
    }

    /// Registers `closure` for `uri` under each of `methods`, and empties `methods`.
    pub fn insert_route_methods(&mut self, uri: String, methods: &mut Vec<String>, closure: A)
        ensures
            final(self)@ == old(self)@.union_prefer_right(
                routes_of(uri@, method_set(old(methods)@), closure),
            ),
            final(methods)@.len() == 0,
    {
        let mut taken: Vec<String> = Vec::new();
        core::mem::swap(&mut taken, methods);
        let entry = Registration { uri, methods: taken, action: closure };
        proof {
            assert(self.log@.push(entry).drop_last() =~= self.log@);
        }
        self.log.push(entry);
    }

    /// Resolves `uri` and `method` as [`resolution`] says; a failure comes
    /// as the canned status of its code.
    pub fn get_action(&self, uri: &String, method: &String) -> (r: Result<&A, ResponseCode>)
        ensures
            match resolution(self@, uri@, method@) {
                Ok(action) => r matches Ok(found) && *found == action,
                Err(code) => r matches Err(e) && e.is_canned(code),
            },
    {
        let mut uri_known = false;
        let mut i: usize = self.log.len();
        while i > 0
            invariant
                i <= self.log@.len(),
                forall|j: int| i <= j ==> !covers_at(self.log@, j, uri@, method@),
                uri_known <==> exists|j: int| i <= j && uri_known_at(self.log@, j, uri@),
            decreases i,
        {
            i -= 1;
            let entry = &self.log[i];
            let ghost was_known = uri_known;
            if entry.uri == *uri {
                if entry.names(method) {
                    proof {
                        assert(covers_at(self.log@, i as int, uri@, method@));
                        lemma_table_value(self.log@, i as int, uri@, method@);
                    }
                    return Ok(&entry.action);
                }
                if entry.methods.len() > 0 {
                    uri_known = true;
                }
            }
            proof {
                if uri_known {
                    if was_known {
                        let j = choose|j: int| i + 1 <= j && uri_known_at(self.log@, j, uri@);
                        assert(i <= j && uri_known_at(self.log@, j, uri@));
                    } else {
                        assert(uri_known_at(self.log@, i as int, uri@));
                    }
                } else {
                    assert forall|j: int| i <= j implies !uri_known_at(self.log@, j, uri@) by {
                        if j > i {
                            assert(i + 1 <= j);
                        }
                    }
                }
            }
        }
        proof {
            lemma_table_dom(self.log@, uri@, method@);
            if uri_known {
                let j = choose|j: int| 0 <= j && uri_known_at(self.log@, j, uri@);
                let other = self.log@[j].methods@[0]@;
                assert(method_set(self.log@[j].methods@).contains(other));
                assert(covers_at(self.log@, j, uri@, other));
                lemma_table_dom(self.log@, uri@, other);
                assert(self@.dom().contains((uri@, other)));
            } else {
                assert forall|other: Seq<char>| !self@.dom().contains((uri@, other)) by {
                    lemma_table_dom(self.log@, uri@, other);
                    if self@.dom().contains((uri@, other)) {
                        let j = choose|j: int| covers_at(self.log@, j, uri@, other);
                        assert(uri_known_at(self.log@, j, uri@));
                    }
                }
            }
        }
        if uri_known {
            Err(ResponseCode::get_405())
        } else {
            Err(ResponseCode::get_404())
        }
    }
}

} // verus!
