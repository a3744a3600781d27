//! Fetching a page with its attachments, breadth first.
//!
//! The crawl holds the addresses that wait to be fetched and the keys of
//! those that it has seen. The key of an address is the address without
//! query and fragment, so that two links to one page count as one. Fetching
//! itself is left to the caller, who asks for the next address and hands
//! back the document that it got.

use crate::doc::{Content, DocContent};
use crate::text::{same_text, texts};
use crate::web::{is_trusted, normalize, normalized, trusted};
use vstd::string::StringExecFns;
use vstd::prelude::*;

verus! {

/// The state of a crawl.
pub struct Crawl {
    queue: Vec<String>,
    seen: Vec<String>,
    limit: usize,
}

/// The mathematical value of a [`Crawl`].
pub struct CrawlView {
    /// The addresses that wait to be fetched, first come first.
    pub queue: Seq<Seq<char>>,
    /// The key of every address that was ever put into the queue.
    pub seen: Seq<Seq<char>>,
    /// How many addresses the crawl may see at most.
    pub limit: nat,
}

/// No text stands twice in the list.
pub open spec fn no_duplicates(list: Seq<Seq<char>>) -> bool {
    forall|i: int, j: int| 0 <= i < j < list.len() ==> list[i] != list[j]
}

/// The key under which an address is remembered: the address without query
/// and fragment. A text that is no URL stands for itself.
pub open spec fn key_of(url: Seq<char>) -> Seq<char> {
    match normalized(url) {
        Some(key) => key,
        None => url,
    }
}

/// What a crawl can be: what waits has been seen, nothing was seen twice,
/// no two addresses that wait have one key, and no more was seen than the
/// limit allows.
pub open spec fn well_formed(crawl: CrawlView) -> bool {
    &&& forall|i: int|
        0 <= i < crawl.queue.len() ==> crawl.seen.contains(key_of(#[trigger] crawl.queue[i]))
    &&& no_duplicates(crawl.seen)
    &&& forall|i: int, j: int|
        0 <= i < j < crawl.queue.len() ==> key_of(#[trigger] crawl.queue[i]) != key_of(
            #[trigger] crawl.queue[j],
        )
    &&& crawl.seen.len() <= crawl.limit
}

/// The crawl after `url` was discovered: it joins the queue as it is given,
/// unless its key was seen before or the limit is reached.
pub open spec fn discover(crawl: CrawlView, url: Seq<char>) -> CrawlView {
    if crawl.seen.contains(key_of(url)) || crawl.seen.len() >= crawl.limit {
        crawl
    } else {
        CrawlView {
            queue: crawl.queue.push(url),
            seen: crawl.seen.push(key_of(url)),
            limit: crawl.limit,
        }
    }
}

/// The crawl after the first `count` of the addresses were discovered.
pub open spec fn discover_all(crawl: CrawlView, urls: Seq<Seq<char>>, count: nat) -> CrawlView
    decreases count,
{
    if count == 0 || count > urls.len() {
        crawl
    } else {
        discover(discover_all(crawl, urls, (count - 1) as nat), urls[count - 1])
    }
}

/// The index of the first address of the queue that is on the trusted
/// host, or the length of the queue where none is.
pub open spec fn first_trusted(queue: Seq<Seq<char>>) -> int
    decreases queue.len(),
{
    if queue.len() == 0 {
        0
    } else if trusted(queue[0]) {
        0
    } else {
        1 + first_trusted(queue.skip(1))
    }
}

/// The addresses that a document leads on to.
pub open spec fn leads(content: Content) -> Seq<Seq<char>> {
    match content {
        Content::DiffableHtml(_, attachments, _) => attachments,
        Content::Other(_) => Seq::empty(),
    }
}

/// Discovering keeps a crawl well-formed, and forgets nothing seen.
pub proof fn lemma_discover(crawl: CrawlView, url: Seq<char>)
    requires
        well_formed(crawl),
    ensures
        well_formed(discover(crawl, url)),
        forall|other: Seq<char>| crawl.seen.contains(other) ==> discover(crawl, url).seen.contains(other),
{
    let after = discover(crawl, url);
    if !(crawl.seen.contains(key_of(url)) || crawl.seen.len() >= crawl.limit) {
        assert forall|other: Seq<char>| crawl.seen.contains(other) implies after.seen.contains(
            other,
        ) by {
            let k = choose|k: int| 0 <= k < crawl.seen.len() && crawl.seen[k] == other;
            assert(after.seen[k] == other);
        }
        assert forall|i: int| 0 <= i < after.queue.len() implies after.seen.contains(
            key_of(#[trigger] after.queue[i]),
        ) by {
            if i < crawl.queue.len() {
                assert(after.queue[i] == crawl.queue[i]);
                assert(crawl.seen.contains(key_of(crawl.queue[i])));
            } else {
                assert(after.seen[crawl.seen.len() as int] == key_of(url));
            }
        }
        assert forall|i: int, j: int| 0 <= i < j < after.queue.len() implies key_of(
            #[trigger] after.queue[i],
        ) != key_of(#[trigger] after.queue[j]) by {
            assert(after.queue[i] == crawl.queue[i]);
            if j == crawl.queue.len() {
                assert(crawl.seen.contains(key_of(crawl.queue[i])));
            } else {
                assert(after.queue[j] == crawl.queue[j]);
            }
        }
    }
}

impl View for Crawl {
    type V = CrawlView;

    closed spec fn view(&self) -> CrawlView {
        CrawlView { queue: texts(self.queue@), seen: texts(self.seen@), limit: self.limit as nat }
    }
}

/// The key under which an address is remembered.
pub fn key(url: &str) -> (key: String)
    ensures
        key@ == key_of(url@),
{
    match normalize(url) {
        Some(key) => key,
        None => String::from_str(url),
    }
}

/// Tells whether the text stands in the list.
pub fn contains_text(list: &Vec<String>, text: &str) -> (found: bool)
    ensures
        found == texts(list@).contains(text@),
{
    let mut i: usize = 0;
    while i < list.len()
        invariant
            i <= list.len(),
            forall|j: int| 0 <= j < i ==> texts(list@)[j] != text@,
        decreases list.len() - i,
    {
        if same_text(list[i].as_str(), text) {
            assert(texts(list@)[i as int] == text@);
            return true;
        }
        i += 1;
    }
    false
}

impl Crawl {
    #[verifier::type_invariant]
    spec fn inv(self) -> bool {
        well_formed(self@)
    }

    /// A crawl that starts at `seed` and sees at most `limit` addresses.
    /// With a limit of nothing, not even the seed is fetched.
    pub fn new(seed: String, limit: usize) -> (crawl: Crawl)
        ensures
            crawl@ == discover(
                CrawlView { queue: Seq::empty(), seen: Seq::empty(), limit: limit as nat },
                seed@,
            ),
            well_formed(crawl@),
    {
        let mut queue: Vec<String> = Vec::new();
        let mut seen: Vec<String> = Vec::new();
        proof {
            let empty = CrawlView { queue: Seq::empty(), seen: Seq::empty(), limit: limit as nat };
            assert(texts(queue@) =~= Seq::empty());
            assert(texts(seen@) =~= Seq::empty());
            assert(!empty.seen.contains(key_of(seed@)));
            lemma_discover(empty, seed@);
        }
        if limit > 0 {
            seen.push(key(seed.as_str()));
            queue.push(seed);
        }
        proof {
            let empty = CrawlView { queue: Seq::empty(), seen: Seq::empty(), limit: limit as nat };
            assert(texts(queue@) =~= discover(empty, seed@).queue);
            assert(texts(seen@) =~= discover(empty, seed@).seen);
        }
        Crawl { queue, seen, limit }
    }

    /// The next address to fetch: the first in the queue that is on the
    /// trusted host. It leaves the queue, and so do the addresses before it,
    /// which are passed over. `None` once the queue holds no such address;
    /// the queue is empty then.
    pub fn next(&mut self) -> (url: Option<String>)
        ensures
            final(self)@.seen == old(self)@.seen,
            final(self)@.limit == old(self)@.limit,
            ({
                let queue = old(self)@.queue;
                let at = first_trusted(queue);
                if at < queue.len() {
                    url matches Some(u) && u@ == queue[at] && trusted(u@) && final(self)@.queue
                        == queue.skip(at + 1)
                } else {
                    url is None && final(self)@.queue.len() == 0
                }
            }),
            well_formed(final(self)@),
    {
        proof {
            use_type_invariant(&*self);
        }
        let ghost start = self@.queue;
        let ghost seen = self@.seen;
        let ghost mut passed: int = 0;
        let mut queue: Vec<String> = Vec::new();
        proof {
            assert(texts(queue@) =~= Seq::empty());
        }
        core::mem::swap(&mut self.queue, &mut queue);
        let mut found: Option<String> = None;
        assert(start.skip(0) =~= start);
        while queue.len() > 0 && found.is_none()
            invariant
                0 <= passed <= start.len(),
                texts(queue@) == start.skip(passed),
                found is None ==> first_trusted(start) == passed + first_trusted(start.skip(passed)),
                found matches Some(u) ==> passed >= 1 && first_trusted(start) == passed - 1 && u@
                    == start[passed - 1] && trusted(u@),
            decreases queue.len() + (if found is None { 1int } else { 0int }),
        {
            let url = queue.remove(0);
            proof {
                assert(texts(queue@) =~= start.skip(passed).skip(1));
                assert(start.skip(passed).skip(1) =~= start.skip(passed + 1));
                assert(url@ == start.skip(passed)[0]);
                passed = passed + 1;
            }
            if is_trusted(url.as_str()) {
                found = Some(url);
            }
        }
        proof {
            let rest = texts(queue@);
            assert forall|i: int| 0 <= i < rest.len() implies seen.contains(
                key_of(#[trigger] rest[i]),
            ) by {
                assert(rest[i] == start[i + passed]);
            }
            assert forall|i: int, j: int| 0 <= i < j < rest.len() implies key_of(
                #[trigger] rest[i],
            ) != key_of(#[trigger] rest[j]) by {
                assert(rest[i] == start[i + passed]);
                assert(rest[j] == start[j + passed]);
            }
        }
        self.queue = queue;
        found
    }

    /// Takes note of a fetched document: the addresses of its attachments
    /// join the queue, in their order and as they are given, as far as
    /// their keys were not seen before. Tells whether the limit left room
    /// for all of them.
    pub fn found(&mut self, content: &DocContent) -> (complete: bool)
        ensures
            final(self)@ == discover_all(old(self)@, leads(content@), leads(content@).len()),
            complete == forall|i: int|
                0 <= i < leads(content@).len() ==> final(self)@.seen.contains(
                    key_of(#[trigger] leads(content@)[i]),
                ),
            well_formed(final(self)@),
    {
        proof {
            use_type_invariant(&*self);
        }
        let attachments = match content.attachments() {
            Some(list) => list,
            None => { return true; },
        };
        let ghost urls = leads(content@);
        let ghost start = self@;
        let mut queue: Vec<String> = Vec::new();
        let mut seen: Vec<String> = Vec::new();
        proof {
            assert(texts(queue@) =~= Seq::empty());
        }
        core::mem::swap(&mut self.queue, &mut queue);
        core::mem::swap(&mut self.seen, &mut seen);
        let limit = self.limit;
        let mut complete = true;
        let mut i: usize = 0;
        while i < attachments.len()
            invariant
                i <= attachments.len(),
                urls == texts(attachments@),
                well_formed(discover_all(start, urls, i as nat)),
                discover_all(start, urls, i as nat) == (CrawlView {
                    queue: texts(queue@),
                    seen: texts(seen@),
                    limit: limit as nat,
                }),
                complete == forall|j: int|
                    0 <= j < i ==> texts(seen@).contains(key_of(#[trigger] urls[j])),
                !complete ==> seen.len() >= limit,
            decreases attachments.len() - i,
        {
            let ghost before = discover_all(start, urls, i as nat);
            let url = &attachments[i];
            let name = key(url.as_str());
            proof {
                lemma_discover(before, url@);
                assert(urls[i as int] == url@);
            }
            if contains_text(&seen, name.as_str()) {
            } else if seen.len() >= limit {
                complete = false;
            } else {
                queue.push(url.clone());
                seen.push(name);
                proof {
                    assert(texts(queue@) =~= before.queue.push(url@));
                    assert(texts(seen@) =~= before.seen.push(key_of(url@)));
                    assert(texts(seen@)[before.seen.len() as int] == key_of(url@));
                }
            }
            proof {
                let after = discover(before, url@);
                assert(texts(seen@) == after.seen);
                if complete {
                    assert forall|j: int| 0 <= j < i + 1 implies texts(seen@).contains(
                        key_of(#[trigger] urls[j]),
                    ) by {
                        if j < i {
                            assert(before.seen.contains(key_of(urls[j])));
                        }
                    }
                } else {
                    if texts(seen@).contains(key_of(urls[i as int])) {
                        let j = choose|j: int|
                            0 <= j < i && !before.seen.contains(key_of(#[trigger] urls[j]));
                        assert(!texts(seen@).contains(key_of(urls[j])));
                    }
                }
            }
            i += 1;
        }
        self.seen = seen;
        self.queue = queue;
        complete
    }
}

/// The keys of the addresses of a list.
pub open spec fn keys(list: Seq<Seq<char>>) -> Seq<Seq<char>> {
    Seq::new(list.len(), |i: int| key_of(list[i]))
}

/// A page is fetched once: once no address with a key waits any more, none
/// with that key comes into the queue again, whatever is discovered later.
pub proof fn law_fetched_once(crawl: CrawlView, key: Seq<char>, urls: Seq<Seq<char>>, count: nat)
    requires
        well_formed(crawl),
        crawl.seen.contains(key),
        !keys(crawl.queue).contains(key),
    ensures
        well_formed(discover_all(crawl, urls, count)),
        discover_all(crawl, urls, count).seen.contains(key),
        !keys(discover_all(crawl, urls, count).queue).contains(key),
    decreases count,
{
    if count > 0 && count <= urls.len() {
        law_fetched_once(crawl, key, urls, (count - 1) as nat);
        let before = discover_all(crawl, urls, (count - 1) as nat);
        lemma_discover(before, urls[count - 1]);
        let after = discover(before, urls[count - 1]);
        if keys(after.queue).contains(key) {
            let k = choose|k: int| 0 <= k < keys(after.queue).len() && keys(after.queue)[k] == key;
            if k < before.queue.len() {
                assert(keys(before.queue)[k] == key);
            }
        }
    }
}

/// Two links to one page are one fetch: an address whose key was seen does
/// not join the queue, though it differ in query or fragment from the one
/// that was seen.
pub proof fn law_same_page_is_not_queued(crawl: CrawlView, url: Seq<char>)
    requires
        crawl.seen.contains(key_of(url)),
    ensures
        discover(crawl, url) == crawl,
{
}

/// The queue of a crawl never holds more than the limit allows to be seen.
pub proof fn law_queue_is_bounded(crawl: CrawlView)
    requires
        well_formed(crawl),
    ensures
        crawl.queue.len() <= crawl.limit,
{
    assert forall|i: int| 0 <= i < keys(crawl.queue).len() implies crawl.seen.contains(
        #[trigger] keys(crawl.queue)[i],
    ) by {
        assert(crawl.seen.contains(key_of(crawl.queue[i])));
    }
    crate::text::lemma_distinct_within(keys(crawl.queue), crawl.seen);
}

/// The addresses of a queue that are on the trusted host, in their order.
pub open spec fn trusted_of(queue: Seq<Seq<char>>) -> Seq<Seq<char>>
    decreases queue.len(),
{
    if queue.len() == 0 {
        Seq::empty()
    } else if trusted(queue[0]) {
        seq![queue[0]] + trusted_of(queue.skip(1))
    } else {
        trusted_of(queue.skip(1))
    }
}

/// The addresses that a crawl fetches in its next `steps` steps, in their
/// order, where `web` tells which document an address gives. A step takes
/// the next address from the queue, as `next` does, and discovers what its
/// document leads on to, as `found` does.
pub open spec fn fetched(crawl: CrawlView, web: spec_fn(Seq<char>) -> Content, steps: nat) -> Seq<
    Seq<char>,
>
    decreases steps,
{
    if steps == 0 || first_trusted(crawl.queue) >= crawl.queue.len() {
        Seq::empty()
    } else {
        seq![crawl.queue[first_trusted(crawl.queue)]] + fetched(
            discover_all(
                CrawlView {
                    queue: crawl.queue.skip(first_trusted(crawl.queue) + 1),
                    seen: crawl.seen,
                    limit: crawl.limit,
                },
                leads(web(crawl.queue[first_trusted(crawl.queue)])),
                leads(web(crawl.queue[first_trusted(crawl.queue)])).len(),
            ),
            web,
            (steps - 1) as nat,
        )
    }
}

proof fn lemma_first_trusted(queue: Seq<Seq<char>>)
    ensures
        0 <= first_trusted(queue) <= queue.len(),
        first_trusted(queue) < queue.len() ==> trusted_of(queue) == seq![
            queue[first_trusted(queue)],
        ] + trusted_of(queue.skip(first_trusted(queue) + 1)),
        first_trusted(queue) >= queue.len() ==> trusted_of(queue) == Seq::<Seq<char>>::empty(),
    decreases queue.len(),
{
    if queue.len() > 0 && !trusted(queue[0]) {
        let rest = queue.skip(1);
        lemma_first_trusted(rest);
        let at = first_trusted(rest);
        if at < rest.len() {
            assert(rest[at] == queue[at + 1]);
            assert(rest.skip(at + 1) =~= queue.skip(at + 2));
        }
    }
}

proof fn lemma_discovered_are_given(crawl: CrawlView, urls: Seq<Seq<char>>, count: nat)
    requires
        count <= urls.len(),
    ensures
        discover_all(crawl, urls, count).queue.len() <= crawl.queue.len() + count,
        discover_all(crawl, urls, count).queue.len() >= crawl.queue.len(),
        forall|i: int|
            0 <= i < crawl.queue.len() ==> discover_all(crawl, urls, count).queue[i]
                == crawl.queue[i],
        forall|i: int|
            crawl.queue.len() <= i < discover_all(crawl, urls, count).queue.len() ==> exists|k: int|
                0 <= k < count && urls[k] == #[trigger] discover_all(crawl, urls, count).queue[i],
    decreases count,
{
    if count > 0 {
        lemma_discovered_are_given(crawl, urls, (count - 1) as nat);
        let before = discover_all(crawl, urls, (count - 1) as nat);
        let after = discover(before, urls[count - 1]);
        assert forall|i: int| crawl.queue.len() <= i < after.queue.len() implies exists|k: int|
            0 <= k < count && urls[k] == #[trigger] after.queue[i] by {
            if i < before.queue.len() {
                let k = choose|k: int| 0 <= k < count - 1 && urls[k] == before.queue[i];
                assert(urls[k] == after.queue[i]);
            } else {
                assert(urls[count - 1] == after.queue[i]);
            }
        }
    }
}

proof fn lemma_leaves_are_fetched(crawl: CrawlView, web: spec_fn(Seq<char>) -> Content, steps: nat)
    requires
        steps >= crawl.queue.len(),
        forall|i: int| 0 <= i < crawl.queue.len() ==> leads(web(#[trigger] crawl.queue[i])).len() == 0,
    ensures
        fetched(crawl, web, steps) == trusted_of(crawl.queue),
    decreases steps,
{
    lemma_first_trusted(crawl.queue);
    let at = first_trusted(crawl.queue);
    if steps > 0 && at < crawl.queue.len() {
        let rest = CrawlView {
            queue: crawl.queue.skip(at + 1),
            seen: crawl.seen,
            limit: crawl.limit,
        };
        assert(leads(web(crawl.queue[at])).len() == 0);
        assert forall|i: int| 0 <= i < rest.queue.len() implies leads(
            web(#[trigger] rest.queue[i]),
        ).len() == 0 by {
            assert(rest.queue[i] == crawl.queue[i + at + 1]);
        }
        lemma_leaves_are_fetched(rest, web, (steps - 1) as nat);
    }
}

/// The crawl of a page with its attachments. Where the seed is on the
/// trusted host and what its page leads on to leads no further, the seed is
/// fetched first, and after it the addresses that its page has put into the
/// queue, as far as they are on the trusted host, each once and in their
/// order. Nothing else is fetched.
pub proof fn law_page_with_attachments(
    seed: Seq<char>,
    limit: nat,
    web: spec_fn(Seq<char>) -> Content,
    steps: nat,
)
    requires
        trusted(seed),
        limit > 0,
        steps > leads(web(seed)).len(),
        forall|i: int|
            0 <= i < leads(web(seed)).len() ==> leads(web(#[trigger] leads(web(seed))[i])).len()
                == 0,
    ensures
        fetched(
            discover(CrawlView { queue: Seq::empty(), seen: Seq::empty(), limit }, seed),
            web,
            steps,
        ) == seq![seed] + trusted_of(
            discover_all(
                CrawlView { queue: Seq::empty(), seen: seq![key_of(seed)], limit },
                leads(web(seed)),
                leads(web(seed)).len(),
            ).queue,
        ),
{
    let empty = CrawlView { queue: Seq::empty(), seen: Seq::empty(), limit };
    let start = discover(empty, seed);
    let links = leads(web(seed));
    assert(!empty.seen.contains(key_of(seed)));
    assert(start.queue =~= seq![seed]);
    assert(start.seen =~= seq![key_of(seed)]);
    assert(first_trusted(start.queue) == 0);
    let rest = CrawlView { queue: start.queue.skip(1), seen: start.seen, limit };
    assert(rest.queue =~= Seq::empty());
    let after = discover_all(rest, links, links.len());
    lemma_discovered_are_given(rest, links, links.len());
    assert forall|i: int| 0 <= i < after.queue.len() implies leads(web(#[trigger] after.queue[i])).len()
        == 0 by {
        let k = choose|k: int| 0 <= k < links.len() && links[k] == after.queue[i];
        assert(leads(web(links[k])).len() == 0);
    }
    lemma_leaves_are_fetched(after, web, (steps - 1) as nat);
}

} // verus!
