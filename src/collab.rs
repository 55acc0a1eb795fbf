use vstd::prelude::*;

verus! {

/// A peer of the collaborative grid.
#[derive(Debug)]
pub struct Client {
    pub name: String,
}

/// A peer joins under `name`.
#[derive(Debug)]
pub struct InitEvent {
    pub name: String,
}

/// The grid as `sender` sees it.
#[derive(Debug)]
pub struct GridUpdateEvent {
    pub grid: Vec<Row>,
    pub sender: String,
}

/// The peers now connected.
#[derive(Debug)]
pub struct ClientListEvent {
    pub clients: Vec<Client>,
}

/// One cell of the shared grid: its value, the peer that wrote it last and
/// the logical time of that write.
#[derive(Debug)]
pub struct Column {
    pub peer: String,
    pub timestamp: usize,
    pub idx: usize,
    pub value: String,
}

/// A row of the shared grid.
#[derive(Debug)]
pub struct Row {
    pub idx: usize,
    pub columns: Vec<Column>,
}

pub struct ColumnModel {
    pub peer: Seq<char>,
    pub timestamp: usize,
    pub idx: usize,
    pub value: Seq<char>,
}

impl View for Column {
    type V = ColumnModel;

    open spec fn view(&self) -> ColumnModel {
        ColumnModel { peer: self.peer@, timestamp: self.timestamp, idx: self.idx, value: self.value@ }
    }
}

/// Last writer wins: the remote write is taken when it is newer; on equal
/// times `coin` decides.
pub open spec fn adopts(local: usize, remote: usize, coin: bool) -> bool {
    remote > local || (remote == local && coin)
}

pub fn adopt_remote(local_timestamp: usize, remote_timestamp: usize, coin: bool) -> (r: bool)
    ensures
        r == adopts(local_timestamp, remote_timestamp, coin),
{
    remote_timestamp > local_timestamp || (remote_timestamp == local_timestamp && coin)
}

/// Merges a remote column into the local one. `coin` is a fair coin drawn by
/// the caller for ties.
pub fn merge_column(local: &mut Column, remote: &Column, coin: bool)
    ensures
        final(local)@ == if adopts(old(local).timestamp, remote.timestamp, coin) {
            remote@
        } else {
            old(local)@
        },
{
    if adopt_remote(local.timestamp, remote.timestamp, coin) {
        *local = Column { peer: remote.peer.clone(), timestamp: remote.timestamp, idx: remote.idx, value: remote.value.clone() };
    }
}

/// A blank cell of the shared grid at position `idx`.
pub fn init_column(idx: usize) -> (c: Column)
    ensures
        c@ == (ColumnModel { peer: Seq::empty(), timestamp: 0, idx, value: Seq::empty() }),
{
    Column { peer: String::new(), timestamp: 0, idx, value: String::new() }
}

/// A blank shared grid of `rows` rows of `cols` cells, rows and cells
/// numbered from zero.
pub fn init_data(rows: usize, cols: usize) -> (g: Vec<Row>)
    ensures
        g@.len() == rows,
        forall|i: int| 0 <= i < rows ==> (#[trigger] g@[i]).idx == i && g@[i].columns@.len() == cols,
        forall|i: int, j: int| 0 <= i < rows && 0 <= j < cols ==> (#[trigger] g@[i].columns@[j])@ == (ColumnModel {
            peer: Seq::empty(),
            timestamp: 0,
            idx: j as usize,
            value: Seq::empty(),
        }),
{
    let mut g: Vec<Row> = Vec::new();
    let mut i: usize = 0;
    while i < rows
        invariant
            i <= rows,
            g@.len() == i,
            forall|a: int| 0 <= a < i ==> (#[trigger] g@[a]).idx == a && g@[a].columns@.len() == cols,
            forall|a: int, b: int| 0 <= a < i && 0 <= b < cols ==> (#[trigger] g@[a].columns@[b])@ == (ColumnModel {
                peer: Seq::empty(),
                timestamp: 0,
                idx: b as usize,
                value: Seq::empty(),
            }),
        decreases rows - i,
    {
        let mut columns: Vec<Column> = Vec::new();
        let mut j: usize = 0;
        while j < cols
            invariant
                j <= cols,
                columns@.len() == j,
                forall|b: int| 0 <= b < j ==> (#[trigger] columns@[b])@ == (ColumnModel {
                    peer: Seq::empty(),
                    timestamp: 0,
                    idx: b as usize,
                    value: Seq::empty(),
                }),
            decreases cols - j,
        {
            columns.push(init_column(j));
            j = j + 1;
        }
        g.push(Row { idx: i, columns });
        i = i + 1;
    }
    g
}

/// A local write of `value` by `peer`: one tick later than the cell's last
/// write, or `None` when the clock is at its end.
pub fn edit_column(old: &Column, peer: &str, value: &str) -> (c: Option<Column>)
    ensures
        old.timestamp < usize::MAX ==> (c matches Some(n) && n@ == (ColumnModel {
            peer: peer@,
            timestamp: (old.timestamp + 1) as usize,
            idx: old.idx,
            value: value@,
        })),
        old.timestamp == usize::MAX ==> c is None,
{
    if old.timestamp == usize::MAX {
        return None;
    }
    Some(Column { peer: String::from_str(peer), timestamp: old.timestamp + 1, idx: old.idx, value: String::from_str(value) })
}

} // verus!
