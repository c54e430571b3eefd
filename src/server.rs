use vstd::prelude::*;
use vstd::utf8::*;

use crate::response::{Response, ResponseView};

verus! {

/// A path with one trailing `/` taken off, unless the path is `/` itself.
pub open spec fn normalize(p: Seq<u8>) -> Seq<u8> {
    if p.len() > 1 && p.last() == 47 {
        p.drop_last()
    } else {
        p
    }
}

/// The index of the first route whose prefix starts `path`.
pub open spec fn first_match(routes: Seq<Seq<u8>>, path: Seq<u8>) -> Option<int> {
    if exists|i: int| 0 <= i < routes.len() && routes[i].is_prefix_of(path) {
        Some(
            choose|i: int|
                0 <= i < routes.len() && routes[i].is_prefix_of(path) && forall|j: int|
                    0 <= j < i ==> !routes[j].is_prefix_of(path),
        )
    } else {
        None
    }
}

/// `server: basket`
pub open spec fn server_header() -> (Seq<u8>, Seq<u8>) {
    (seq![115u8, 101u8, 114u8, 118u8, 101u8, 114u8], seq![98u8, 97u8, 115u8, 107u8, 101u8, 116u8])
}

/// Routes by path prefix: each route is a prefix and a handler, tried in the
/// order they were added; the state is handed to each handler.
#[must_use]
#[derive(Debug)]
pub struct Router<S, H> {
    routes: Vec<(String, H)>,
    state: S,
}

impl<S, H> Router<S, H> {
    /// The route prefixes as wire bytes, in order.
    pub closed spec fn prefixes(&self) -> Seq<Seq<u8>> {
        self.routes@.map_values(|r: (String, H)| encode_utf8(r.0@))
    }

    /// The handlers, in order.
    pub closed spec fn handlers(&self) -> Seq<H> {
        self.routes@.map_values(|r: (String, H)| r.1)
    }

    pub closed spec fn spec_state(&self) -> S {
        self.state
    }

    /// A router with no routes.
    pub fn new(state: S) -> (r: Self)
        ensures
            r.prefixes() == Seq::<Seq<u8>>::empty(),
            r.handlers() == Seq::<H>::empty(),
            r.spec_state() == state,
    {
        let r = Router { routes: Vec::new(), state };
        assert(r.prefixes() =~= Seq::<Seq<u8>>::empty());
        assert(r.handlers() =~= Seq::<H>::empty());
        r
    }

    /// Adds a route after those already there.
    pub fn route(self, route: &str, handler: H) -> (r: Self)
        ensures
            r.prefixes() == self.prefixes().push(encode_utf8(route@)),
            r.handlers() == self.handlers().push(handler),
            r.spec_state() == self.spec_state(),
            r.prefixes().len() == r.handlers().len(),
    {
        let mut r = self;
        let ghost h = handler;
        r.routes.push((route.to_owned(), handler));
        assert(r.prefixes() =~= self.prefixes().push(encode_utf8(route@)));
        assert(r.handlers() =~= self.handlers().push(h));
        r
    }

    /// The shared state.
    pub fn state(&self) -> (s: &S)
        ensures
            *s == self.spec_state(),
    {
        &self.state
    }

    /// The handler of route `i`.
    pub fn handler(&self, i: usize) -> (h: &H)
        requires
            i < self.handlers().len(),
        ensures
            *h == self.handlers()[i as int],
    {
        &self.routes[i].1
    }

    /// The route for a request path: the first, in the order added, whose
    /// prefix starts the path once one trailing `/` is taken off.
    pub fn select(&self, path: &str) -> (r: Option<usize>)
        ensures
            self.prefixes().len() == self.handlers().len(),
            match first_match(self.prefixes(), normalize(encode_utf8(path@))) {
                Some(i) => 0 <= i < self.handlers().len() && r == Some(i as usize),
                None => r is None,
            },
    {
        let p = path.as_bytes();
        let n: usize = if p.len() > 1 && p[p.len() - 1] == 47 {
            p.len() - 1
        } else {
            p.len()
        };
        let ghost np = normalize(p@);
        assert(np =~= p@.take(n as int));
        let mut i: usize = 0;
        while i < self.routes.len()
            invariant
                i <= self.routes@.len(),
                n <= p@.len(),
                np == p@.take(n as int),
                np == normalize(encode_utf8(path@)),
                self.prefixes().len() == self.routes@.len(),
                self.handlers().len() == self.routes@.len(),
                forall|j: int| 0 <= j < i ==> !(#[trigger] self.prefixes()[j]).is_prefix_of(np),
            decreases self.routes@.len() - i,
        {
            let prefix = self.routes[i].0.as_str().as_bytes();
            assert(prefix@ == self.prefixes()[i as int]);
            if starts_with(p, n, prefix) {
                proof {
                    let rs = self.prefixes();
                    let c = choose|c: int|
                        0 <= c < rs.len() && rs[c].is_prefix_of(np) && forall|j: int|
                            0 <= j < c ==> !rs[j].is_prefix_of(np);
                    assert(c == i) by {
                        if c < i {
                            assert(!rs[c].is_prefix_of(np));
                        }
                        if c > i {
                            assert(!rs[i as int].is_prefix_of(np));
                        }
                    }
                }
                return Some(i);
            }
            i += 1;
        }
        None
    }
}

/// Whether `prefix` starts the first `n` bytes of `p`.
fn starts_with(p: &[u8], n: usize, prefix: &[u8]) -> (r: bool)
    requires
        n <= p@.len(),
    ensures
        r == prefix@.is_prefix_of(p@.take(n as int)),
{
    if prefix.len() > n {
        return false;
    }
    let mut j: usize = 0;
    while j < prefix.len()
        invariant
            prefix@.len() <= n <= p@.len(),
            j <= prefix@.len(),
            forall|m: int| 0 <= m < j ==> p@[m] == prefix@[m],
        decreases prefix@.len() - j,
    {
        if p[j] != prefix[j] {
            assert(p@.take(n as int).subrange(0, prefix@.len() as int)[j as int] != prefix@[j as int]);
            return false;
        }
        j += 1;
    }
    assert(p@.take(n as int).subrange(0, prefix@.len() as int) =~= prefix@);
    true
}

/// The answer when no route matches: status 404, no headers, no body.
pub fn not_found() -> (r: Response)
    ensures
        r@ == (ResponseView { status: 404, headers: seq![], body: None }),
{
    Response::builder().status(404).build()
}

/// A response as the server sends it: `server: basket` appended to its headers.
pub fn with_server_header(response: Response) -> (r: Response)
    ensures
        r@ == (ResponseView { headers: response@.headers.push(server_header()), ..response@ }),
{
    proof {
        reveal_strlit("server");
        reveal_strlit("basket");
        is_ascii_chars_encode_utf8("server"@);
        is_ascii_chars_encode_utf8("basket"@);
        assert(encode_utf8("server"@) =~= server_header().0);
        assert(encode_utf8("basket"@) =~= server_header().1);
    }
    let b: crate::response::ResponseBuilder = crate::response::ResponseBuilder::from(response);
    b.header(("server", "basket")).build()
}

} // verus!
