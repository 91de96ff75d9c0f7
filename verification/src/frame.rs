//! Text on the wire: the framing of one event, and the channel name in a
//! request path.

use vstd::prelude::*;
use vstd::string::*;

verus! {

/// One event as it goes over the wire: the event type and the data, each on
/// a line of its own, closed by a blank line.
pub open spec fn event_frame(event: Seq<char>, data: Seq<char>) -> Seq<char> {
    "event: "@ + event + "\ndata: "@ + data + "\n\n"@
}

/// Where the last segment of `path` starts: right after its last `/`, or at
/// 0 where it has none.
pub open spec fn segment_start(path: Seq<char>) -> int
    decreases path.len(),
{
    if path.len() == 0 {
        0
    } else if path.last() == '/' {
        path.len() as int
    } else {
        segment_start(path.drop_last())
    }
}

/// The last segment of `path`: what follows its last `/`, or all of it
/// where it has none.
pub open spec fn last_segment(path: Seq<char>) -> Seq<char> {
    path.subrange(segment_start(path), path.len() as int)
}

/// The last segment starts inside the path, right after a `/` unless it
/// starts the path, and holds no `/` itself.
pub proof fn lemma_segment_start(path: Seq<char>)
    ensures
        0 <= segment_start(path) <= path.len(),
        segment_start(path) > 0 ==> path[segment_start(path) - 1] == '/',
        forall|i: int| segment_start(path) <= i < path.len() ==> path[i] != '/',
    decreases path.len(),
{
    if path.len() > 0 && path.last() != '/' {
        let head = path.drop_last();
        lemma_segment_start(head);
        assert forall|i: int| segment_start(path) <= i < path.len() implies path[i] != '/' by {
            if i < head.len() {
                assert(head[i] == path[i]);
            }
        }
        if segment_start(path) > 0 {
            assert(head[segment_start(path) - 1] == path[segment_start(path) - 1]);
        }
    }
}

/// A path is what comes before its last segment followed by that segment,
/// and the last segment holds no `/`.
pub proof fn lemma_last_segment(path: Seq<char>)
    ensures
        path == path.subrange(0, segment_start(path)) + last_segment(path),
        !last_segment(path).contains('/'),
{
    lemma_segment_start(path);
    assert(path =~= path.subrange(0, segment_start(path)) + last_segment(path));
}

/// A name without `/` is the last segment of any path that ends in `/` and
/// that name.
pub proof fn lemma_last_segment_of_join(prefix: Seq<char>, name: Seq<char>)
    requires
        !name.contains('/'),
    ensures
        last_segment(prefix + seq!['/'] + name) == name,
    decreases name.len(),
{
    let path = prefix + seq!['/'] + name;
    if name.len() == 0 {
        assert(path.last() == '/');
        assert(last_segment(path) =~= name);
    } else {
        assert(path.last() == name.last());
        assert(name.contains(name.last()));
        let shorter = name.drop_last();
        assert(!shorter.contains('/')) by {
            if shorter.contains('/') {
                let i = choose|i: int| 0 <= i < shorter.len() && shorter[i] == '/';
                assert(name[i] == '/');
            }
        }
        lemma_last_segment_of_join(prefix, shorter);
        assert(path.drop_last() =~= prefix + seq!['/'] + shorter);
        lemma_segment_start(prefix + seq!['/'] + shorter);
        assert(last_segment(path) =~= last_segment(path.drop_last()).push(name.last()));
        assert(shorter.push(name.last()) =~= name);
    }
}

/// Frames one event for the wire.
pub fn format_event(event: &str, data: &str) -> (payload: String)
    ensures
        payload@ == event_frame(event@, data@),
{
    let mut payload = String::from_str("event: ");
    payload.append(event);
    payload.append("\ndata: ");
    payload.append(data);
    payload.append("\n\n");
    payload
}

/// The channel that a request path names: its last segment.
pub fn channel_of_path(path: &str) -> (channel: String)
    ensures
        channel@ == last_segment(path@),
{
    let len = path.unicode_len();
    let mut start = len;
    assert(path@.subrange(0, len as int) =~= path@);
    while start > 0 && path.get_char(start - 1) != '/'
        invariant
            0 <= start <= len,
            len == path@.len(),
            segment_start(path@) == segment_start(path@.subrange(0, start as int)),
        decreases start,
    {
        proof {
            let head = path@.subrange(0, start as int);
            assert(head.last() == path@[start - 1]);
            assert(head.drop_last() =~= path@.subrange(0, start - 1));
        }
        start -= 1;
    }
    proof {
        let head = path@.subrange(0, start as int);
        if start > 0 {
            assert(head.last() == path@[start - 1]);
        }
    }
    String::from_str(path.substring_char(start, len))
}

} // verus!
