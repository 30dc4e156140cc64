//! Per-connection message handling: what a peer's request does to the grid,
//! what goes back to that peer, and what is published to every session.
use vstd::prelude::*;
use crate::grid::{lemma_index_in_range, GridState};
use crate::types::{ClientMessage, ServerMessage, TileState};

verus! {

/// The endpoint a websocket server answers on.
pub struct WebSocketServer {
    pub path: String,
}

impl WebSocketServer {
    /// A server answering on `path`.
    pub fn new(path: String) -> (r: Self)
        ensures
            r.path == path,
    {
        WebSocketServer { path }
    }
}

/// Where a connection stands. `Closed` is terminal: a peer that comes back
/// opens a new session and asks for the grid again.
#[derive(PartialEq, Eq, Structural, Debug, Clone, Copy)]
pub enum SessionPhase {
    Connected,
    Closed,
}

/// What happened on a connection, as far as its lifetime goes.
#[derive(PartialEq, Eq, Structural, Debug, Clone, Copy)]
pub enum ConnectionEvent {
    /// A published batch was sent on to the peer.
    Delivered,
    /// The hub dropped batches that this session had not read yet.
    Lagged,
    /// A request was decoded and handled.
    Handled,
    /// A request could not be decoded; it is ignored.
    Undecodable,
    /// Sending to the peer failed.
    SendFailed,
    /// The peer closed the connection, or receiving from it failed.
    PeerClosed,
    /// The hub is gone.
    HubClosed,
}

/// The events after which a session ends.
pub open spec fn ends_session(e: ConnectionEvent) -> bool {
    e == ConnectionEvent::SendFailed || e == ConnectionEvent::PeerClosed || e
        == ConnectionEvent::HubClosed
}

/// The phase of a session after `event`.
pub fn next_phase(phase: SessionPhase, event: ConnectionEvent) -> (r: SessionPhase)
    ensures
        r == (if phase == SessionPhase::Closed || ends_session(event) {
            SessionPhase::Closed
        } else {
            SessionPhase::Connected
        }),
{
    match phase {
        SessionPhase::Closed => SessionPhase::Closed,
        SessionPhase::Connected => match event {
            ConnectionEvent::SendFailed | ConnectionEvent::PeerClosed | ConnectionEvent::HubClosed => {
                SessionPhase::Closed
            },
            _ => SessionPhase::Connected,
        },
    }
}

/// What handling one request yields: the reply to the requesting peer, if
/// any, and the changes to publish to every session.
pub struct Outcome {
    pub reply: Option<ServerMessage>,
    pub publish: Vec<TileState>,
}

/// `m` is a `grid_state` event for `g`: its size, and every cell in
/// row-major order with its position and tile.
pub open spec fn describes_grid(m: ServerMessage, g: GridState) -> bool {
    match m {
        ServerMessage::GridState { width, height, tiles } => {
            &&& width == g.width
            &&& height == g.height
            &&& tiles@.len() == g.tiles@.len()
            &&& forall|x: int, y: int|
                g.in_bounds(x, y) ==> tiles@[#[trigger] g.index_of(x, y)] == (TileState {
                    col: x as i32,
                    row: y as i32,
                    data: g.tile_at(x, y),
                })
        },
        _ => false,
    }
}

/// The `grid_state` event for `grid`.
pub fn grid_state_message(grid: &GridState) -> (r: ServerMessage)
    requires
        grid.wf(),
    ensures
        describes_grid(r, *grid),
{
    let w = grid.width;
    let h = grid.height;
    let mut tiles: Vec<TileState> = Vec::new();
    let mut y: usize = 0;
    while y < h
        invariant
            grid.wf(),
            w == grid.width,
            h == grid.height,
            y <= h,
            tiles@.len() == y * w,
            forall|a: int, b: int|
                0 <= a < w && 0 <= b < y ==> tiles@[#[trigger] grid.index_of(a, b)] == (TileState {
                    col: a as i32,
                    row: b as i32,
                    data: grid.tile_at(a, b),
                }),
        decreases h - y,
    {
        let mut x: usize = 0;
        while x < w
            invariant
                grid.wf(),
                w == grid.width,
                h == grid.height,
                y < h,
                x <= w,
                tiles@.len() == y * w + x,
                forall|a: int, b: int|
                    0 <= a < w && 0 <= b < y ==> tiles@[#[trigger] grid.index_of(a, b)] == (TileState {
                        col: a as i32,
                        row: b as i32,
                        data: grid.tile_at(a, b),
                    }),
                forall|a: int|
                    0 <= a < x ==> tiles@[#[trigger] grid.index_of(a, y as int)] == (TileState {
                        col: a as i32,
                        row: y as i32,
                        data: grid.tile_at(a, y as int),
                    }),
            decreases w - x,
        {
            let i = grid.get_index(x as u32, y as u32);
            let ghost t0 = tiles@;
            tiles.push(TileState { col: x as i32, row: y as i32, data: grid.tiles[i].duplicate() });
            proof {
                assert forall|a: int, b: int| 0 <= a < w && 0 <= b < y implies tiles@[#[trigger] grid.index_of(
                    a,
                    b,
                )] == t0[grid.index_of(a, b)] by {
                    lemma_index_in_range(w as int, y as int, a, b);
                    vstd::arithmetic::mul::lemma_mul_is_commutative(w as int, y as int);
                }
                assert forall|a: int| 0 <= a < x implies tiles@[#[trigger] grid.index_of(a, y as int)]
                    == t0[grid.index_of(a, y as int)] by {}
            }
            x = x + 1;
        }
        proof {
            assert((y + 1) * w == y * w + w) by (nonlinear_arith);
        }
        y = y + 1;
    }
    proof {
        vstd::arithmetic::mul::lemma_mul_is_commutative(w as int, h as int);
    }
    ServerMessage::GridState { width: w, height: h, tiles }
}

/// A copy of `t`, equal to it in every field.
fn copy_change(t: &TileState) -> (r: TileState)
    ensures
        r == *t,
{
    TileState { col: t.col, row: t.row, data: t.data.duplicate() }
}

/// The `tile_update` events that tell a peer of a published batch, one per
/// change, in order.
pub fn updates_to_messages(batch: &Vec<TileState>) -> (r: Vec<ServerMessage>)
    ensures
        r@.len() == batch@.len(),
        forall|k: int|
            0 <= k < r@.len() ==> #[trigger] r@[k] == (ServerMessage::TileUpdate {
                col: batch@[k].col,
                row: batch@[k].row,
                data: batch@[k].data,
            }),
{
    let mut r: Vec<ServerMessage> = Vec::new();
    let mut k: usize = 0;
    while k < batch.len()
        invariant
            k <= batch@.len(),
            r@.len() == k,
            forall|j: int|
                0 <= j < k ==> #[trigger] r@[j] == (ServerMessage::TileUpdate {
                    col: batch@[j].col,
                    row: batch@[j].row,
                    data: batch@[j].data,
                }),
        decreases batch@.len() - k,
    {
        let t = copy_change(&batch[k]);
        r.push(ServerMessage::TileUpdate { col: t.col, row: t.row, data: t.data });
        k = k + 1;
    }
    r
}

/// Handles one decoded request from a peer.
///
/// `request_grid_state` leaves the grid alone and replies with the grid's
/// `grid_state` event. An in-bounds `tile_update` sets the tile, replies with
/// the same update, and publishes that one change. An out-of-bounds one
/// changes nothing, publishes nothing and replies `OutOfBounds`.
pub fn on_receive_message(grid: &mut GridState, message: ClientMessage) -> (r: Outcome)
    requires
        old(grid).wf(),
    ensures
        final(grid).wf(),
        final(grid).width == old(grid).width,
        final(grid).height == old(grid).height,
        match message {
            ClientMessage::RequestGridState => {
                &&& *final(grid) == *old(grid)
                &&& r.reply is Some
                &&& describes_grid(r.reply->Some_0, *old(grid))
                &&& r.publish@.len() == 0
            },
            ClientMessage::TileUpdate { col, row, data } => if old(grid).in_bounds(
                col as int,
                row as int,
            ) {
                &&& final(grid).tiles@ == old(grid).tiles@.update(
                    old(grid).index_of(col as int, row as int),
                    data,
                )
                &&& r.reply == Some(ServerMessage::TileUpdate { col, row, data })
                &&& r.publish@ == seq![(TileState { col, row, data })]
            } else {
                &&& *final(grid) == *old(grid)
                &&& r.reply == Some(ServerMessage::OutOfBounds { col, row })
                &&& r.publish@.len() == 0
            },
        },
{
    match message {
        ClientMessage::RequestGridState => {
            Outcome { reply: Some(grid_state_message(grid)), publish: Vec::new() }
        },
        ClientMessage::TileUpdate { col, row, data } => {
            if col < 0 || row < 0 {
                return Outcome { reply: Some(ServerMessage::OutOfBounds { col, row }), publish: Vec::new() };
            }
            let reply_data = data.duplicate();
            let change = TileState { col, row, data: data.duplicate() };
            match grid.set_tile(col as u32, row as u32, data) {
                Ok(()) => {
                    let mut publish: Vec<TileState> = Vec::new();
                    publish.push(change);
                    proof {
                        assert(publish@ =~= seq![(TileState { col, row, data: reply_data })]);
                    }
                    Outcome {
                        reply: Some(ServerMessage::TileUpdate { col, row, data: reply_data }),
                        publish,
                    }
                },
                Err(_) => Outcome {
                    reply: Some(ServerMessage::OutOfBounds { col, row }),
                    publish: Vec::new(),
                },
            }
        },
    }
}


/// Reading a `grid_state` event back gives the grid again: the same width and
/// height, each entry naming an in-bounds cell whose index is the entry's own
/// place, with that cell's tile, so that the tiles come back in the same order
/// and with the same multiset.
pub proof fn lemma_grid_state_round_trip(g: GridState, m: ServerMessage)
    requires
        g.wf(),
        describes_grid(m, g),
    ensures
        match m {
            ServerMessage::GridState { width, height, tiles } => {
                &&& width == g.width
                &&& height == g.height
                &&& tiles@.len() == g.tiles@.len()
                &&& forall|k: int|
                    0 <= k < tiles@.len() ==> g.in_bounds(
                        (#[trigger] tiles@[k]).col as int,
                        tiles@[k].row as int,
                    ) && g.index_of(tiles@[k].col as int, tiles@[k].row as int) == k && tiles@[k].data
                        == g.tiles@[k]
                &&& tiles@.map_values(|t: TileState| t.data) == g.tiles@
                &&& tiles@.map_values(|t: TileState| t.data).to_multiset() == g.tiles@.to_multiset()
            },
            _ => false,
        },
{
    if let ServerMessage::GridState { width, height, tiles } = m {
        let w = g.width as int;
        let h = g.height as int;
        assert forall|k: int| 0 <= k < tiles@.len() implies g.in_bounds(
            (#[trigger] tiles@[k]).col as int,
            tiles@[k].row as int,
        ) && g.index_of(tiles@[k].col as int, tiles@[k].row as int) == k && tiles@[k].data
            == g.tiles@[k] by {
            let x = k % w;
            let y = k / w;
            assert(w > 0) by {
                if w == 0 {
                    assert(w * h == 0) by (nonlinear_arith)
                        requires
                            w == 0,
                    ;
                }
            }
            vstd::arithmetic::div_mod::lemma_fundamental_div_mod(k, w);
            vstd::arithmetic::mul::lemma_mul_is_commutative(y, w);
            vstd::arithmetic::div_mod::lemma_mod_pos_bound(k, w);
            vstd::arithmetic::div_mod::lemma_div_pos_is_pos(k, w);
            if y >= h {
                assert(y * w >= h * w) by (nonlinear_arith)
                    requires
                        y >= h,
                        w >= 0,
                ;
                assert(h * w == w * h) by (nonlinear_arith);
            }
            assert(g.index_of(x, y) == k);
        }
        assert(tiles@.map_values(|t: TileState| t.data) =~= g.tiles@);
    }
}

} // verus!
