use vstd::prelude::*;
use crate::graph::{edge_at, valid_pos, Graph};

verus! {

/// The largest timestamp the renderer accepts: 9999-12-31 23:59:59 UTC.
/// Beyond it the calendar conversion below is not guaranteed to succeed.
pub const TS_MAX: u64 = 253402300799;

/// The text that the calendar renderer produces for epoch second `t`:
/// `YYYY-MM-DD HH:MM:SS.fffffffff` in UTC.  It depends on `t` alone.
pub uninterp spec fn utc_render(t: u64) -> Seq<char>;

/// Relies on chrono's `DateTime<Utc>` conversion and formatting: turning a
/// Unix epoch second into UTC calendar time and rendering it with the
/// `%Y-%m-%d %H:%M:%S.%f` format is a function of the second alone.  Every
/// field is numeric and zero-padded — four digits of year (the admitted
/// seconds lie in 1970 to 9999), two of month, day, hour, minute and second,
/// nine of nanoseconds — so the text is always 29 characters.
#[verifier::external_body]
pub fn convert_timestamp(unix_time: u64) -> (r: String)
    requires
        unix_time <= TS_MAX,
    ensures
        r@ == utc_render(unix_time),
        r@.len() == 29,
{
    let d = std::time::UNIX_EPOCH + std::time::Duration::from_secs(unix_time);
    let datetime = chrono::DateTime::<chrono::Utc>::from(d);
    datetime.format("%Y-%m-%d %H:%M:%S.%f").to_string()
}

/// All timestamps in the graph are renderable.
pub open spec fn timestamps_renderable(g: Graph) -> bool {
    forall|i: int, j: int| valid_pos(g, i, j) ==> #[trigger] edge_at(g, i, j).timestamp <= TS_MAX
}

/// The scan state: `None` before any edge is seen, else a witnessed extremal
/// edge of the prefix.  `best` holds source, target, timestamp and kind.
spec fn scan_inv(
    g: Graph,
    best: Option<(usize, usize, u64, String)>,
    i: int,
    j: int,
    lower: bool,
) -> bool {
    &&& match best {
        None => forall|i2: int, j2: int|
            (0 <= i2 < i || (i2 == i && 0 <= j2 < j)) ==> !valid_pos(g, i2, j2),
        Some(b) => {
            &&& exists|i2: int, j2: int|
                (0 <= i2 < i || (i2 == i && 0 <= j2 < j)) && valid_pos(g, i2, j2)
                    && g.adj@[i2].0 == b.0 && #[trigger] edge_at(g, i2, j2).target == b.1
                    && edge_at(g, i2, j2).timestamp == b.2 && edge_at(g, i2, j2).kind == b.3@
            &&& forall|i2: int, j2: int|
                ((0 <= i2 < i || (i2 == i && 0 <= j2 < j)) && valid_pos(g, i2, j2)) ==> (if lower {
                    b.2 <= #[trigger] edge_at(g, i2, j2).timestamp
                } else {
                    b.2 >= #[trigger] edge_at(g, i2, j2).timestamp
                })
        },
    }
}

/// What the two extremal scans promise: `None` exactly when the graph has no
/// edge; otherwise a real edge of the graph whose timestamp is extremal over
/// every edge, returned as source, target, rendered timestamp and kind.
pub open spec fn extremal_post(
    g: Graph,
    r: Option<(usize, usize, String, String)>,
    lower: bool,
) -> bool {
    match r {
        None => forall|i: int, j: int| !valid_pos(g, i, j),
        Some(p) => {
            &&& exists|i: int, j: int|
                valid_pos(g, i, j) && g.adj@[i].0 == p.0
                    && #[trigger] edge_at(g, i, j).target == p.1
                    && edge_at(g, i, j).kind == p.3@
                    && p.2@ == utc_render(edge_at(g, i, j).timestamp)
                    && (forall|i2: int, j2: int| valid_pos(g, i2, j2) ==> (if lower {
                        edge_at(g, i, j).timestamp <= #[trigger] edge_at(g, i2, j2).timestamp
                    } else {
                        edge_at(g, i, j).timestamp >= #[trigger] edge_at(g, i2, j2).timestamp
                    }))
        },
    }
}

/// Scan every edge and keep the one with the extremal timestamp: the minimum
/// when `lower` is set, the maximum otherwise.  The first edge seen wins a
/// tie.
fn find_extremal_timestamp(g: &Graph, lower: bool) -> (r: Option<(usize, usize, String, String)>)
    requires
        g.wf(),
        timestamps_renderable(*g),
    ensures
        extremal_post(*g, r, lower),
{
    let mut best: Option<(usize, usize, u64, String)> = None;
    let n = g.adj.len();
    for i in 0..n
        invariant
            n == g.adj@.len(),
            g.wf(),
            timestamps_renderable(*g),
            scan_inv(*g, best, i as int, 0, lower),
    {
        let ne = g.adj[i].1.len();
        for j in 0..ne
            invariant
                n == g.adj@.len(),
                i < n,
                ne == g.entry_edges(i as int).len(),
                g.wf(),
                timestamps_renderable(*g),
                scan_inv(*g, best, i as int, j as int, lower),
        {
            let e = &g.adj[i].1[j];
            proof {
                assert(edge_at(*g, i as int, j as int) == e@);
            }
            let take = match &best {
                None => true,
                Some(b) => if lower {
                    e.timestamp < b.2
                } else {
                    e.timestamp > b.2
                },
            };
            if take {
                best = Some((g.adj[i].0, e.target, e.timestamp, e.kind.clone()));
            }
            proof {
                assert(scan_inv(*g, best, i as int, j + 1, lower)) by {
                    if best is Some {
                        let b = best->Some_0;
                        assert(valid_pos(*g, i as int, j as int));
                        if take {
                            assert(edge_at(*g, i as int, j as int).target == b.1
                                && edge_at(*g, i as int, j as int).timestamp == b.2
                                && edge_at(*g, i as int, j as int).kind == b.3@);
                        }
                    }
                }
            }
        }
        proof {
            assert(scan_inv(*g, best, i + 1, 0, lower)) by {
                assert forall|i2: int, j2: int|
                    (0 <= i2 < i + 1 || (i2 == i + 1 && 0 <= j2 < 0)) && valid_pos(*g, i2, j2)
                    implies (0 <= i2 < i as int || (i2 == i as int && 0 <= j2 < ne as int)) by {}
            }
        }
    }
    match best {
        None => None,
        Some(b) => {
            let rendered = convert_timestamp(b.2);
            Some((b.0, b.1, rendered, b.3))
        },
    }
}

/// The edge with the globally minimum timestamp, as source, target, rendered
/// timestamp and kind; `None` exactly when the graph has no edge.  The first
/// edge encountered wins a tie.
pub fn find_first_timestamp(g: &Graph) -> (r: Option<(usize, usize, String, String)>)
    requires
        g.wf(),
        timestamps_renderable(*g),
    ensures
        extremal_post(*g, r, true),
{
    find_extremal_timestamp(g, true)
}

/// The edge with the globally maximum timestamp, as source, target, rendered
/// timestamp and kind; `None` exactly when the graph has no edge.  The first
/// edge encountered wins a tie.
pub fn find_last_timestamp(g: &Graph) -> (r: Option<(usize, usize, String, String)>)
    requires
        g.wf(),
        timestamps_renderable(*g),
    ensures
        extremal_post(*g, r, false),
{
    find_extremal_timestamp(g, false)
}

} // verus!
