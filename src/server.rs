use vstd::prelude::*;
use vstd::string::*;
use crate::frontend::{Frontend, FrontendError, FrontendMap};
use crate::responder::{VFResponder, VecHandler};

verus! {

#[verifier::external_type_specification]
#[verifier::external_body]
pub struct ExRoute(rocket::Route);

pub open spec fn index_html() -> Seq<char> {
    seq!['i', 'n', 'd', 'e', 'x', '.', 'h', 't', 'm', 'l']
}

pub open spec fn ends_with_index(p: Seq<char>) -> bool {
    p.len() >= 10 && p.subrange(p.len() - 10, p.len() as int) == index_html()
}

/// The path with its `index.html` suffix taken off.
pub open spec fn strip_index(p: Seq<char>) -> Seq<char> {
    p.subrange(0, p.len() - 10)
}

/// The routes of one file, as (route path, bytes, file path): a route at the
/// file's own path, and before it, for an `index.html`, one at the directory path.
pub open spec fn routes_of_file(path: Seq<char>, bytes: Seq<u8>) -> Seq<(Seq<char>, Seq<u8>, Seq<char>)> {
    if ends_with_index(path) {
        seq![(strip_index(path), bytes, path), (path, bytes, path)]
    } else {
        seq![(path, bytes, path)]
    }
}

/// The routes of all files, in the order of the files.
pub open spec fn routes_of_files(files: Seq<(Seq<char>, Seq<u8>)>) -> Seq<(Seq<char>, Seq<u8>, Seq<char>)>
    decreases files.len(),
{
    if files.len() == 0 {
        Seq::empty()
    } else {
        routes_of_files(files.drop_last()) + routes_of_file(files.last().0, files.last().1)
    }
}

/// Whether the first `end` characters of `s` end with `index.html`.
fn ends_with_index_at(s: &str, end: usize) -> (r: bool)
    requires
        end <= s@.len(),
    ensures
        r == ends_with_index(s@.subrange(0, end as int)),
{
    let ghost p = s@.subrange(0, end as int);
    if end < 10 {
        return false;
    }
    let b = s.get_char(end - 10) == 'i' && s.get_char(end - 9) == 'n' && s.get_char(end - 8) == 'd'
        && s.get_char(end - 7) == 'e' && s.get_char(end - 6) == 'x' && s.get_char(end - 5) == '.'
        && s.get_char(end - 4) == 'h' && s.get_char(end - 3) == 't' && s.get_char(end - 2) == 'm'
        && s.get_char(end - 1) == 'l';
    let ghost tail = p.subrange(p.len() - 10, p.len() as int);
    if b {
        assert(tail =~= index_html());
    } else {
        proof {
            if tail == index_html() {
                assert(tail[0] == 'i' && tail[1] == 'n' && tail[2] == 'd' && tail[3] == 'e' && tail[4] == 'x');
                assert(tail[5] == '.' && tail[6] == 'h' && tail[7] == 't' && tail[8] == 'm' && tail[9] == 'l');
            }
        }
    }
    b
}

/// The directory path an `index.html` is also served at: the path with its
/// `index.html` suffix taken off once.
pub fn strip_index_suffix(path: &String) -> (r: String)
    requires
        ends_with_index(path@),
    ensures
        r@ == strip_index(path@),
{
    let s = path.as_str();
    let end = s.unicode_len();
    String::from_str(s.substring_char(0, end - 10))
}

/// One GET route to mount: its path and the handler serving a file there.
pub struct PlannedRoute {
    pub path: String,
    pub handler: VecHandler,
}

impl PlannedRoute {
    pub open spec fn view(&self) -> (Seq<char>, Seq<u8>, Seq<char>) {
        (self.path@, self.handler.0.0@, self.handler.0.1@)
    }
}

pub open spec fn routes_view(routes: Seq<PlannedRoute>) -> Seq<(Seq<char>, Seq<u8>, Seq<char>)> {
    routes.map_values(|r: PlannedRoute| r@)
}

/// A group of routes of the embedding application, mounted under `base`.
pub struct RouteGroup {
    pub base: String,
    pub routes: Vec<rocket::Route>,
}

pub open spec fn group_bases(groups: Seq<RouteGroup>) -> Seq<Seq<char>> {
    groups.map_values(|g: RouteGroup| g.base@)
}

/// A server that is configured but not started yet: its port, an optional
/// session secret, the resolved frontend and the route groups to mount.
pub struct Server {
    port: u16,
    secret_key: Option<String>,
    frontend: FrontendMap,
    routes: Vec<RouteGroup>,
}

impl Server {
    pub closed spec fn spec_port(&self) -> u16 {
        self.port
    }

    pub closed spec fn spec_secret_key(&self) -> Option<Seq<char>> {
        match self.secret_key {
            Some(k) => Some(k@),
            None => None,
        }
    }

    pub closed spec fn spec_frontend(&self) -> FrontendMap {
        self.frontend
    }

    /// The registered route groups, in the order their bases were first mounted.
    pub closed spec fn spec_groups(&self) -> Seq<RouteGroup> {
        self.routes@
    }

    /// The frontend is well formed and no base is mounted twice.
    pub closed spec fn wf(&self) -> bool {
        &&& self.frontend.wf()
        &&& group_bases(self.routes@).no_duplicates()
    }

    /// A well-formed server holds a well-formed frontend.
    pub proof fn lemma_frontend_wf(&self)
        requires
            self.wf(),
        ensures
            self.spec_frontend().wf(),
    {
    }

    /// Builds a server on `port`, with an optional session secret, and resolves
    /// the frontend into memory; fails exactly where the frontend cannot be resolved.
    pub fn new<F: Frontend>(port: u16, frontend: F, secret_key: Option<String>) -> (r: Result<Server, FrontendError>)
        ensures
            r is Ok <==> frontend.files() is Some,
            r matches Ok(s) ==> {
                &&& s.wf()
                &&& s.spec_frontend().wf()
                &&& s.spec_port() == port
                &&& s.spec_secret_key() == crate::responder::opt_string_view(secret_key)
                &&& s.spec_frontend()@ == frontend.files()->Some_0
                &&& s.spec_groups().len() == 0
            },
    {
        match frontend.resolve() {
            Ok(files) => {
                let s = Server { port, secret_key, frontend: files, routes: Vec::new() };
                assert(group_bases(s.routes@) =~= Seq::<Seq<char>>::empty());
                Ok(s)
            },
            Err(e) => Err(e),
        }
    }

    pub fn port(&self) -> (r: u16)
        ensures
            r == self.spec_port(),
    {
        self.port
    }

    pub fn secret_key(&self) -> (r: &Option<String>)
        ensures
            crate::responder::opt_string_view(*r) == self.spec_secret_key(),
    {
        &self.secret_key
    }

    pub fn frontend(&self) -> (r: &FrontendMap)
        ensures
            *r == self.spec_frontend(),
    {
        &self.frontend
    }

    /// Registers `routes` to be mounted under `base` when the server starts;
    /// a later registration for the same base replaces the earlier one.
    pub fn mount(&mut self, base: &str, routes: Vec<rocket::Route>)
        requires
            old(self).wf(),
        ensures
            final(self).wf(),
            final(self).spec_frontend().wf(),
            final(self).spec_port() == old(self).spec_port(),
            final(self).spec_secret_key() == old(self).spec_secret_key(),
            final(self).spec_frontend() == old(self).spec_frontend(),
            group_bases(old(self).spec_groups()).contains(base@) ==> exists|i: int|
                0 <= i < old(self).spec_groups().len() && old(self).spec_groups()[i].base@ == base@
                    && final(self).spec_groups().len() == old(self).spec_groups().len()
                    && final(self).spec_groups()[i].base@ == base@
                    && final(self).spec_groups()[i].routes == routes
                    && forall|j: int| 0 <= j < old(self).spec_groups().len() && j != i
                        ==> final(self).spec_groups()[j] == old(self).spec_groups()[j],
            !group_bases(old(self).spec_groups()).contains(base@) ==> final(self).spec_groups().len() == old(self).spec_groups().len() + 1
                && final(self).spec_groups().drop_last() == old(self).spec_groups()
                && final(self).spec_groups().last().base@ == base@
                && final(self).spec_groups().last().routes == routes,
    {
        let key = String::from_str(base);
        let mut i: usize = 0;
        while i < self.routes.len()
            invariant
                *self == *old(self),
                self.wf(),
                key@ == base@,
                i <= self.routes@.len(),
                forall|j: int| 0 <= j < i ==> self.routes@[j].base@ != base@,
            decreases self.routes@.len() - i,
        {
            if self.routes[i].base == key {
                let ghost before = self.routes@;
                self.routes.set(i, RouteGroup { base: key, routes });
                proof {
                    assert(group_bases(before)[i as int] == base@);
                    assert(group_bases(self.routes@) =~= group_bases(before));
                    assert(self.routes@[i as int].base@ == base@);
                    assert(self.routes@[i as int].routes == routes);
                    assert(forall|j: int| 0 <= j < before.len() && j != i ==> self.routes@[j] == before[j]);
                    assert(old(self).spec_groups() == before);
                    let k = i as int;
                    assert(0 <= k < old(self).spec_groups().len() && old(self).spec_groups()[k].base@ == base@
                        && self.spec_groups().len() == old(self).spec_groups().len()
                        && self.spec_groups()[k].base@ == base@
                        && self.spec_groups()[k].routes == routes
                        && forall|j: int| 0 <= j < old(self).spec_groups().len() && j != k
                            ==> self.spec_groups()[j] == old(self).spec_groups()[j]);
                }
                return;
            }
            i = i + 1;
        }
        let ghost before = self.routes@;
        proof {
            if group_bases(before).contains(base@) {
                let j = choose|j: int| 0 <= j < group_bases(before).len() && group_bases(before)[j] == base@;
                assert(before[j].base@ == base@);
            }
            assert(!group_bases(before).contains(base@));
        }
        self.routes.push(RouteGroup { base: key, routes });
        proof {
            let bases = group_bases(self.routes@);
            assert(bases =~= group_bases(before).push(base@));
            assert forall|a: int, b: int| 0 <= a < bases.len() && 0 <= b < bases.len() && a != b
                implies bases[a] != bases[b] by {
                if a == bases.len() - 1 {
                    assert(group_bases(before)[b] == bases[b]);
                } else if b == bases.len() - 1 {
                    assert(group_bases(before)[a] == bases[a]);
                }
            }
            assert(self.routes@.drop_last() =~= before);
        }
    }

    /// The GET routes that serve the frontend: one per file at its own path,
    /// and for each `index.html` one more at the path with that suffix taken off.
    pub fn frontend_routes(&self) -> (r: Vec<PlannedRoute>)
        requires
            self.wf(),
        ensures
            routes_view(r@) == routes_of_files(self.spec_frontend().entries()),
    {
        let files = &self.frontend;
        let ghost entries = files.entries();
        let n = files.num_files();
        let mut out: Vec<PlannedRoute> = Vec::new();
        let mut i: usize = 0;
        assert(entries.take(0) =~= Seq::<(Seq<char>, Seq<u8>)>::empty());
        assert(routes_view(out@) =~= Seq::<(Seq<char>, Seq<u8>, Seq<char>)>::empty());
        while i < n
            invariant
                i <= n,
                n == entries.len(),
                entries == files.entries(),
                routes_view(out@) == routes_of_files(entries.take(i as int)),
            decreases n - i,
        {
            let f = files.file_at(i);
            assert(entries.take(i + 1).drop_last() =~= entries.take(i as int));
            assert(entries.take(i + 1).last() == entries[i as int]);
            let ghost before = routes_view(out@);
            let index = ends_with_index_at(f.path.as_str(), f.path.as_str().unicode_len());
            assert(f.path@.subrange(0, f.path@.len() as int) =~= f.path@);
            if index {
                let bytes = f.bytes.clone();
                assert(bytes@ =~= f.bytes@);
                let handler = VecHandler(VFResponder(bytes, f.path.clone()));
                out.push(PlannedRoute { path: strip_index_suffix(&f.path), handler });
            }
            let bytes = f.bytes.clone();
            assert(bytes@ =~= f.bytes@);
            let handler = VecHandler(VFResponder(bytes, f.path.clone()));
            out.push(PlannedRoute { path: f.path.clone(), handler });
            assert(routes_view(out@) =~= before + routes_of_file(f.path@, f.bytes@));
            i = i + 1;
        }
        assert(entries.take(n as int) =~= entries);
        out
    }

    /// Hands over the registered route groups, consuming the server.
    pub fn into_route_groups(self) -> (r: Vec<RouteGroup>)
        ensures
            r@ == self.spec_groups(),
    {
        self.routes
    }
}


proof fn lemma_routes_of_files_contain(files: Seq<(Seq<char>, Seq<u8>)>, i: int)
    requires
        0 <= i < files.len(),
    ensures
        routes_of_files(files).contains((files[i].0, files[i].1, files[i].0)),
        ends_with_index(files[i].0) ==> routes_of_files(files).contains((strip_index(files[i].0), files[i].1, files[i].0)),
    decreases files.len(),
{
    let prefix = files.drop_last();
    let own = routes_of_file(files.last().0, files.last().1);
    let all = routes_of_files(files);
    assert(all == routes_of_files(prefix) + own);
    if i < files.len() - 1 {
        lemma_routes_of_files_contain(prefix, i);
        assert(prefix[i] == files[i]);
        let before = routes_of_files(prefix);
        let j = choose|j: int| 0 <= j < before.len() && before[j] == (files[i].0, files[i].1, files[i].0);
        assert(all[j] == before[j]);
        if ends_with_index(files[i].0) {
            let j2 = choose|j: int| 0 <= j < before.len() && before[j] == (strip_index(files[i].0), files[i].1, files[i].0);
            assert(all[j2] == before[j2]);
        }
    } else {
        let base = routes_of_files(prefix).len() as int;
        if ends_with_index(files[i].0) {
            assert(all[base] == own[0]);
            assert(all[base + 1] == own[1]);
        } else {
            assert(all[base] == own[0]);
        }
    }
}

/// A server serves every file of its frontend at the file's own path, and
/// each `index.html` also at the path with that suffix taken off, both with
/// the file's bytes.
pub proof fn server_serves_index_html_twice(s: &Server, k: Seq<char>)
    requires
        s.wf(),
        s.spec_frontend()@.contains_key(k),
    ensures
        routes_of_files(s.spec_frontend().entries()).contains((k, s.spec_frontend()@[k], k)),
        ends_with_index(k) ==> routes_of_files(s.spec_frontend().entries()).contains(
            (strip_index(k), s.spec_frontend()@[k], k),
        ),
{
    s.lemma_frontend_wf();
    index_html_served_twice(s.spec_frontend(), k);
}

/// Every file of a frontend gets a route at its own path serving its bytes;
/// a file whose path ends in `index.html` gets a second one, at the path with
/// that suffix taken off, serving the same bytes.
pub proof fn index_html_served_twice(m: FrontendMap, k: Seq<char>)
    requires
        m.wf(),
        m@.contains_key(k),
    ensures
        routes_of_files(m.entries()).contains((k, m@[k], k)),
        ends_with_index(k) ==> routes_of_files(m.entries()).contains((strip_index(k), m@[k], k)),
{
    m.lemma_entries();
    let i = choose|i: int| 0 <= i < m.entries().len() && m.entries()[i].0 == k;
    assert(m@.contains_key(m.entries()[i].0));
    lemma_routes_of_files_contain(m.entries(), i);
}

} // verus!
