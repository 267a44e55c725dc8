//! Decoded script code, kept for the code that ran last.

use std::collections::{HashMap, VecDeque};
use std::rc::Rc;
use swf::avm1::read::Reader;
use swf::avm1::types::Action;
use vstd::prelude::*;

verus! {

/// An action of a script, as the `swf` crate reads it. Nothing is known of it here: it is handed
/// on to whoever runs the script.
#[verifier::external_type_specification]
#[verifier::external_body]
pub struct ExAction<'a>(Action<'a>);

/// What an action means for the flow of control.
#[derive(Clone, Copy, Debug, PartialEq, Eq, Structural)]
pub enum ActionKind {
    End,
    If { offset: i16 },
    Jump { offset: i16 },
    Try,
    WaitForFrame,
    WaitForFrame2,
    With,
    Other,
}

/// An action read from the front of some code, and how many bytes of the code come after it.
pub struct ReadAction<'a> {
    pub action: Action<'a>,
    pub kind: ActionKind,
    pub remaining: usize,
}

/// What `swf::avm1::read::Reader::read_action` reads from the front of some code: the action, its
/// kind and the number of bytes after it, or nothing where it reports an error.
pub uninterp spec fn read_result(code: Seq<u8>, version: u8) -> Option<ReadAction<'static>>;

/// Reads the first action of some code with `swf::avm1::read::Reader::read_action`. What is read
/// is a function of the bytes and the version alone, and takes at least one byte.
#[verifier::external_body]
fn read_action<'a>(code: &'a [u8], version: u8) -> (read: Option<ReadAction<'a>>)
    ensures
        read == read_result(code@, version),
        read matches Some(read) ==> read.remaining < code@.len(),
{
    let mut reader = Reader::new(code, version);
    let action = reader.read_action().ok()?;
    let kind = match &action {
        Action::End => ActionKind::End,
        Action::If(jump) => ActionKind::If { offset: jump.offset },
        Action::Jump(jump) => ActionKind::Jump { offset: jump.offset },
        Action::Try(_) => ActionKind::Try,
        Action::WaitForFrame(_) => ActionKind::WaitForFrame,
        Action::WaitForFrame2(_) => ActionKind::WaitForFrame2,
        Action::With(_) => ActionKind::With,
        _ => ActionKind::Other,
    };
    Some(ReadAction { action, kind, remaining: reader.get_ref().len() })
}

/// A loaded movie. No two movies that are alive at the same time have the same `id`.
#[derive(Debug)]
pub struct SwfMovie {
    pub id: usize,
    pub version: u8,
    pub data: Vec<u8>,
    pub data_complete: bool,
}

/// The bytes `start..end` of a movie.
#[derive(Clone, Copy, Debug)]
pub struct SwfSlice<'a> {
    pub movie: &'a SwfMovie,
    pub start: usize,
    pub end: usize,
}

impl<'a> SwfSlice<'a> {
    pub open spec fn bytes(self) -> Seq<u8> {
        self.movie.data@.subrange(self.start as int, self.end as int)
    }

    pub fn len(&self) -> (len: usize)
        requires
            self.start <= self.end,
        ensures
            len == self.end - self.start,
    {
        self.end - self.start
    }
}

/// An action of a decoded block. `next` is the position after it, and `jump_target` the index of
/// the action that it may jump to, which is the number of actions for a return.
pub struct CachedAction<'a> {
    pub action: Action<'a>,
    pub next: usize,
    pub jump_target: Option<usize>,
}

/// The actions of some code, up to its end.
pub struct CachedBlock<'a> {
    pub movie: &'a SwfMovie,
    pub actions: Vec<CachedAction<'a>>,
}

/// An action of some code: where it begins and ends, and the position it may jump to.
///
/// Positions are counted from the front of the code as if it were the last of the movie: for code
/// that ends before the movie does, each is larger by the number of bytes in between.
pub struct Decoded {
    pub at: int,
    pub next: int,
    pub target: Option<int>,
    pub read: ReadAction<'static>,
}

/// The action can be kept: it holds no code of its own that runs in its place, and it does not
/// skip over actions that are not loaded yet.
pub open spec fn supported(kind: ActionKind) -> bool {
    match kind {
        ActionKind::Try => false,
        ActionKind::WaitForFrame => false,
        ActionKind::WaitForFrame2 => false,
        ActionKind::With => false,
        _ => true,
    }
}

/// The distance that the action may jump, from the position after it.
pub open spec fn jump_offset(kind: ActionKind) -> Option<int> {
    match kind {
        ActionKind::If { offset } => Some(offset as int),
        ActionKind::Jump { offset } => Some(offset as int),
        _ => None,
    }
}

/// The position that an action of the code `start..end` may jump to, or nothing where the action
/// cannot be kept: it is not supported, or its jump leaves the code.
pub open spec fn landing(kind: ActionKind, start: int, end: int, next: int) -> Option<
    Option<int>,
> {
    if !supported(kind) {
        None
    } else {
        match jump_offset(kind) {
            Some(offset) => if start <= start + next + offset <= end {
                Some(Some(next + offset))
            } else {
                None
            },
            None => Some(None),
        }
    }
}

/// The actions of some code from position `pos` on, up to the first end or that of the code.
/// Nothing where one of them cannot be read or kept. `lead` is what positions are larger by.
pub open spec fn decoded(
    code: Seq<u8>,
    version: u8,
    start: int,
    lead: int,
    pos: int,
) -> Option<Seq<Decoded>>
    decreases code.len() - pos,
{
    if pos >= code.len() {
        Some(Seq::empty())
    } else {
        match read_result(code.skip(pos), version) {
            None => None,
            Some(read) => {
                let next = code.len() - read.remaining;
                match landing(read.kind, start, start + code.len(), lead + next) {
                    None => None,
                    Some(target) => {
                        let item = Decoded { at: lead + pos, next: lead + next, target, read };
                        if read.kind == ActionKind::End {
                            Some(seq![item])
                        } else if next <= pos {
                            None
                        } else {
                            match decoded(code, version, start, lead, next) {
                                None => None,
                                Some(rest) => Some(seq![item] + rest),
                            }
                        }
                    },
                }
            },
        }
    }
}

/// All actions of some code of a movie.
pub open spec fn decoded_slice(code: SwfSlice, version: u8) -> Option<Seq<Decoded>> {
    decoded(code.bytes(), version, code.start as int, code.movie.data@.len() - code.end, 0)
}

/// The index of the action at a position, or the number of actions where none is.
pub open spec fn index_at(items: Seq<Decoded>, position: int) -> int {
    if exists|i: int| 0 <= i < items.len() && (#[trigger] items[i]).at == position {
        choose|i: int| 0 <= i < items.len() && (#[trigger] items[i]).at == position
    } else {
        items.len() as int
    }
}

/// The actions, with positions to jump to in place of indices.
pub open spec fn holds_positions(items: Seq<Decoded>, actions: Seq<CachedAction>) -> bool {
    &&& actions.len() == items.len()
    &&& forall|i: int|
        0 <= i < items.len() ==> {
            let action = #[trigger] actions[i];
            &&& action.action == items[i].read.action
            &&& action.next == items[i].next
            &&& match items[i].target {
                Some(target) => action.jump_target is Some && action.jump_target->0 == target,
                None => action.jump_target is None,
            }
        }
}

/// The actions, with indices to jump to.
pub open spec fn holds_indices(items: Seq<Decoded>, actions: Seq<CachedAction>) -> bool {
    &&& actions.len() == items.len()
    &&& forall|i: int|
        0 <= i < items.len() ==> {
            let action = #[trigger] actions[i];
            &&& action.action == items[i].read.action
            &&& action.next == items[i].next
            &&& match items[i].target {
                Some(target) => action.jump_target is Some && action.jump_target->0 == index_at(
                    items,
                    target,
                ),
                None => action.jump_target is None,
            }
        }
}

/// The position that an action may jump to. Nothing where the action cannot be kept.
pub fn find_landing(kind: ActionKind, start: usize, end: usize, next: usize) -> (target: Option<
    Option<usize>,
>)
    requires
        start + next <= usize::MAX,
    ensures
        match landing(kind, start as int, end as int, next as int) {
            None => target is None,
            Some(None) => target == Some(None::<usize>),
            Some(Some(position)) => target is Some && target->0 is Some && target->0->0
                == position,
        },
{
    let offset: i16 = match kind {
        ActionKind::Try => {
            return None;
        },
        ActionKind::WaitForFrame => {
            return None;
        },
        ActionKind::WaitForFrame2 => {
            return None;
        },
        ActionKind::With => {
            return None;
        },
        ActionKind::If { offset } => offset,
        ActionKind::Jump { offset } => offset,
        _ => {
            return Some(None);
        },
    };
    match (start + next).checked_add_signed(offset as isize) {
        Some(position) => if position < start || position > end {
            None
        } else {
            Some(Some(position - start))
        },
        None => None,
    }
}

/// Each action begins after the one before it.
spec fn ascending(items: Seq<Decoded>) -> bool {
    forall|i: int, j: int| 0 <= i < j < items.len() ==> (#[trigger] items[i]).at < (
    #[trigger] items[j]).at
}

/// The map leads from the position of each action to its index, and from nowhere else.
spec fn indexes(items: Seq<Decoded>, offsets: Map<usize, usize>) -> bool {
    &&& forall|i: int|
        0 <= i < items.len() ==> 0 <= (#[trigger] items[i]).at <= usize::MAX
            && offsets.contains_key(items[i].at as usize) && offsets[items[i].at as usize] == i
    &&& forall|position: usize| #[trigger]
        offsets.contains_key(position) ==> exists|i: int|
            0 <= i < items.len() && (#[trigger] items[i]).at == position
}

proof fn lemma_index_at(items: Seq<Decoded>, i: int)
    requires
        ascending(items),
        0 <= i < items.len(),
    ensures
        index_at(items, items[i].at) == i,
{
    let j = index_at(items, items[i].at);
    assert(0 <= j < items.len() && items[j].at == items[i].at);
    if i < j {
        assert(items[i].at < items[j].at);
    } else if j < i {
        assert(items[j].at < items[i].at);
    }
}

/// Turns the positions to jump to into indices of actions. A position at which no action begins
/// stands for a return.
fn resolve_targets<'a>(
    actions: &mut Vec<CachedAction<'a>>,
    offsets: &HashMap<usize, usize>,
    Ghost(items): Ghost<Seq<Decoded>>,
)
    requires
        holds_positions(items, old(actions)@),
        ascending(items),
        indexes(items, offsets@),
    ensures
        holds_indices(items, final(actions)@),
{
    broadcast use vstd::std_specs::hash::group_hash_axioms;

    let implicit_return: usize = actions.len();
    let mut i: usize = 0;
    while i < actions.len()
        invariant
            i <= actions.len(),
            actions.len() == items.len(),
            implicit_return == items.len(),
            old(actions)@.len() == items.len(),
            holds_positions(items, old(actions)@),
            ascending(items),
            indexes(items, offsets@),
            forall|j: int| i <= j < items.len() ==> #[trigger] actions@[j] == old(actions)@[j],
            forall|j: int|
                0 <= j < i ==> {
                    let action = #[trigger] actions@[j];
                    &&& action.action == items[j].read.action
                    &&& action.next == items[j].next
                    &&& match items[j].target {
                        Some(target) => action.jump_target is Some && action.jump_target->0
                            == index_at(items, target),
                        None => action.jump_target is None,
                    }
                },
        decreases items.len() - i,
    {
        assert(actions@[i as int] == old(actions)@[i as int]);
        if let Some(position) = actions[i].jump_target {
            let index: usize = match offsets.get(&position) {
                Some(index) => *index,
                None => implicit_return,
            };
            proof {
                if offsets@.contains_key(position) {
                    let k = choose|k: int|
                        0 <= k < items.len() && (#[trigger] items[k]).at == position;
                    lemma_index_at(items, k);
                } else {
                    assert forall|k: int| 0 <= k < items.len() implies (#[trigger] items[k]).at
                        != position by {
                        assert(offsets@.contains_key(items[k].at as usize));
                    }
                }
                assert(index == index_at(items, position as int));
            }
            actions[i].jump_target = Some(index);
        }
        i = i + 1;
    }
}

/// What became of an action.
#[derive(Clone, Copy, Debug, PartialEq, Eq, Structural)]
pub enum Progress {
    /// It was added, and more may follow.
    Added,
    /// It was added, and is the last.
    Ended,
    /// It cannot be kept.
    Refused,
}

/// A block of which the first actions are known.
pub struct BlockBuilder<'a> {
    code: SwfSlice<'a>,
    pos: usize,
    actions: Vec<CachedAction<'a>>,
    offsets: HashMap<usize, usize>,
    items: Ghost<Seq<Decoded>>,
}

impl<'a> BlockBuilder<'a> {
    pub closed spec fn wf(self) -> bool {
        &&& self.code.start <= self.code.end <= self.code.movie.data@.len()
        &&& self.code.movie.data@.len() <= usize::MAX
        &&& self.pos <= self.code.end - self.code.start
        &&& holds_positions(self.items@, self.actions@)
        &&& ascending(self.items@)
        &&& indexes(self.items@, self.offsets@)
        &&& forall|i: int|
            0 <= i < self.items@.len() ==> (#[trigger] self.items@[i]).at < self.lead()
                + self.pos
    }

    /// The code that is decoded.
    pub closed spec fn source(self) -> SwfSlice<'a> {
        self.code
    }

    /// How many bytes of the code were decoded.
    pub closed spec fn position(self) -> int {
        self.pos as int
    }

    /// The actions so far.
    pub closed spec fn decoded(self) -> Seq<Decoded> {
        self.items@
    }

    /// What positions in the code are larger by.
    pub open spec fn lead(self) -> int {
        self.source().movie.data@.len() - self.source().end
    }

    /// No actions of some code.
    pub fn new(code: &SwfSlice<'a>) -> (builder: BlockBuilder<'a>)
        requires
            code.start <= code.end <= code.movie.data@.len(),
        ensures
            builder.wf(),
            builder.source() == *code,
            builder.position() == 0,
            builder.decoded() == Seq::<Decoded>::empty(),
    {
        broadcast use vstd::std_specs::hash::group_hash_axioms;

        assert(code.movie.data.len() == code.movie.data@.len());
        BlockBuilder {
            code: *code,
            pos: 0,
            actions: Vec::new(),
            offsets: HashMap::new(),
            items: Ghost(Seq::empty()),
        }
    }

    /// Adds the action that was read at the position reached. An action that cannot be kept
    /// leaves everything as it is.
    pub fn push(&mut self, read: ReadAction<'a>) -> (progress: Progress)
        requires
            old(self).wf(),
            read.remaining < old(self).source().bytes().len() - old(self).position(),
        ensures
            final(self).wf(),
            final(self).source() == old(self).source(),
            ({
                let code = old(self).source();
                let next = code.bytes().len() - read.remaining;
                match landing(
                    read.kind,
                    code.start as int,
                    code.end as int,
                    old(self).lead() + next,
                ) {
                    None => {
                        &&& progress == Progress::Refused
                        &&& final(self).position() == old(self).position()
                        &&& final(self).decoded() == old(self).decoded()
                    },
                    Some(target) => {
                        &&& progress == (if read.kind == ActionKind::End {
                            Progress::Ended
                        } else {
                            Progress::Added
                        })
                        &&& final(self).position() == next
                        &&& final(self).decoded() == old(self).decoded().push(
                            Decoded {
                                at: old(self).lead() + old(self).position(),
                                next: old(self).lead() + next,
                                target,
                                read,
                            },
                        )
                    },
                }
            }),
    {
        broadcast use vstd::std_specs::hash::group_hash_axioms;

        let lead: usize = self.code.movie.data.len() - self.code.end;
        let at: usize = lead + self.pos;
        let next: usize = lead + (self.code.len() - read.remaining);
        let target = match find_landing(read.kind, self.code.start, self.code.end, next) {
            Some(target) => target,
            None => {
                return Progress::Refused;
            },
        };
        let progress = match read.kind {
            ActionKind::End => Progress::Ended,
            _ => Progress::Added,
        };
        let ghost item = Decoded {
            at: at as int,
            next: next as int,
            target: match target {
                Some(position) => Some(position as int),
                None => None,
            },
            read,
        };
        let ghost items = self.items@;
        let ghost grown = items.push(item);
        self.offsets.insert(at, self.actions.len());
        self.actions.push(CachedAction { action: read.action, next, jump_target: target });
        self.pos = self.code.len() - read.remaining;
        self.items = Ghost(grown);
        assert(ascending(grown));
        assert forall|i: int| 0 <= i < grown.len() implies 0 <= (#[trigger] grown[i]).at
            <= usize::MAX && self.offsets@.contains_key(grown[i].at as usize)
            && self.offsets@[grown[i].at as usize] == i by {
            if i < items.len() {
                assert(grown[i] == items[i]);
            }
        }
        assert forall|position: usize| #[trigger]
            self.offsets@.contains_key(position) implies exists|i: int|
            0 <= i < grown.len() && (#[trigger] grown[i]).at == position by {
            if position == at {
                assert(grown[items.len() as int].at == position);
            } else {
                let i = choose|i: int|
                    0 <= i < items.len() && (#[trigger] items[i]).at == position;
                assert(grown[i].at == position);
            }
        }
        progress
    }

    /// The block of the actions so far, each jump leading to the action at its position.
    pub fn finish(self) -> (block: CachedBlock<'a>)
        requires
            self.wf(),
        ensures
            block.movie == self.source().movie,
            holds_indices(self.decoded(), block.actions@),
    {
        let mut actions = self.actions;
        let movie = self.code.movie;
        resolve_targets(&mut actions, &self.offsets, self.items);
        CachedBlock { movie, actions }
    }
}

/// Decodes some code. Nothing where one of its actions cannot be read or kept.
pub fn decode<'a>(code: &SwfSlice<'a>, version: u8) -> (block: Option<CachedBlock<'a>>)
    requires
        code.start <= code.end <= code.movie.data@.len(),
    ensures
        match decoded_slice(*code, version) {
            None => block is None,
            Some(items) => block is Some && block->0.movie == code.movie && holds_indices(
                items,
                block->0.actions@,
            ),
        },
{
    let bytes: &'a [u8] = vstd::slice::slice_subrange(
        code.movie.data.as_slice(),
        code.start,
        code.end,
    );
    let ghost start = code.start as int;
    let ghost lead = code.movie.data@.len() - code.end;
    let mut builder = BlockBuilder::new(code);
    let mut pos: usize = 0;
    let ghost whole = decoded_slice(*code, version);
    while pos < bytes.len()
        invariant_except_break
            whole == (match decoded(bytes@, version, start, lead, pos as int) {
                None => None,
                Some(rest) => Some(builder.decoded() + rest),
            }),
        invariant
            pos <= bytes.len(),
            bytes@ == code.bytes(),
            start == code.start,
            start + bytes@.len() == code.end,
            lead == code.movie.data@.len() - code.end,
            whole == decoded_slice(*code, version),
            builder.wf(),
            builder.source() == *code,
            builder.position() == pos,
        ensures
            whole == Some(builder.decoded()),
        decreases bytes.len() - pos,
    {
        let rest: &'a [u8] = vstd::slice::slice_subrange(bytes, pos, bytes.len());
        assert(rest@ =~= bytes@.skip(pos as int));
        let ghost before = builder.decoded();
        let read = match read_action(rest, version) {
            Some(read) => read,
            None => {
                return None;
            },
        };
        pos = bytes.len() - read.remaining;
        match builder.push(read) {
            Progress::Refused => {
                return None;
            },
            Progress::Ended => {
                assert(before + seq![builder.decoded().last()] =~= builder.decoded());
                break;
            },
            Progress::Added => {
                proof {
                    if let Some(tail) = decoded(bytes@, version, start, lead, pos as int) {
                        let item = builder.decoded().last();
                        assert(before + (seq![item] + tail) =~= builder.decoded() + tail);
                    }
                }
            },
        }
    }
    assert(builder.decoded() + Seq::<Decoded>::empty() =~= builder.decoded());
    Some(builder.finish())
}

/// The number of blocks that are kept.
pub const MAX_BLOCKS: usize = 128;

/// The number of actions that are kept, over all blocks.
pub const MAX_ACTIONS: usize = 32_768;

/// What tells blocks apart: the code, and the version that it was decoded for.
#[derive(Clone, Copy, Debug, PartialEq, Eq, Structural)]
pub struct CacheKey {
    pub movie: usize,
    pub start: usize,
    pub len: usize,
    pub version: u8,
}

/// A block under its key.
pub struct CacheSlot<'a> {
    pub key: CacheKey,
    pub block: Rc<CachedBlock<'a>>,
}

/// Blocks of code that was decoded, and their keys in the order of their last use.
pub struct ActionCache<'a> {
    entries: Vec<CacheSlot<'a>>,
    lru: VecDeque<CacheKey>,
    action_count: usize,
}

/// The code can be kept: it belongs to a movie of the given version that is loaded in full.
pub open spec fn cacheable(code: SwfSlice, version: u8) -> bool {
    &&& code.movie.version == version
    &&& code.movie.data_complete
    &&& code.end <= code.movie.data@.len()
}

pub open spec fn key_of(code: SwfSlice, version: u8) -> CacheKey {
    CacheKey {
        movie: code.movie.id,
        start: code.start,
        len: (code.end - code.start) as usize,
        version,
    }
}

/// The number of actions of the blocks under some keys.
pub open spec fn total_actions<'a>(
    keys: Seq<CacheKey>,
    blocks: Map<CacheKey, CachedBlock<'a>>,
) -> nat
    decreases keys.len(),
{
    if keys.len() == 0 {
        0
    } else {
        blocks[keys[0]].actions@.len() + total_actions(keys.skip(1), blocks)
    }
}

/// Few enough blocks, with few enough actions.
pub open spec fn within_limits<'a>(
    keys: Seq<CacheKey>,
    blocks: Map<CacheKey, CachedBlock<'a>>,
) -> bool {
    &&& keys.len() <= MAX_BLOCKS
    &&& total_actions(keys, blocks) <= MAX_ACTIONS
}

/// The keys that stay: the first, those used longest ago, go until the rest is within the limits.
pub open spec fn kept<'a>(
    keys: Seq<CacheKey>,
    blocks: Map<CacheKey, CachedBlock<'a>>,
) -> Seq<CacheKey>
    decreases keys.len(),
{
    if keys.len() == 0 || within_limits(keys, blocks) {
        keys
    } else {
        kept(keys.skip(1), blocks)
    }
}

/// The keys with one of them, or a new one, as the last used.
pub open spec fn touched(keys: Seq<CacheKey>, key: CacheKey) -> Seq<CacheKey> {
    if keys.contains(key) {
        keys.remove(keys.index_of(key)).push(key)
    } else {
        keys.push(key)
    }
}

/// The block is what the code of the key decodes to, in the movie that the block holds.
pub open spec fn is_decoding<'a>(key: CacheKey, block: CachedBlock<'a>) -> bool {
    let code = SwfSlice {
        movie: block.movie,
        start: key.start,
        end: (key.start + key.len) as usize,
    };
    &&& key.movie == block.movie.id
    &&& key.start + key.len <= usize::MAX
    &&& cacheable(code, key.version)
    &&& decoded_slice(code, key.version) is Some
    &&& holds_indices(decoded_slice(code, key.version)->0, block.actions@)
}

/// The block behind a shared handle.
spec fn held<'a>(block: Rc<CachedBlock<'a>>) -> CachedBlock<'a> {
    *block
}

/// The key stands at some place of the entries.
spec fn entered<'a>(entries: Seq<CacheSlot<'a>>, key: CacheKey) -> bool {
    exists|i: int| 0 <= i < entries.len() && (#[trigger] entries[i]).key == key
}

spec fn place_of<'a>(entries: Seq<CacheSlot<'a>>, key: CacheKey) -> int {
    choose|i: int| 0 <= i < entries.len() && (#[trigger] entries[i]).key == key
}

/// The entries as a map.
spec fn block_map<'a>(entries: Seq<CacheSlot<'a>>) -> Map<CacheKey, CachedBlock<'a>> {
    Map::new(
        |key: CacheKey| entered(entries, key),
        |key: CacheKey| *entries[place_of(entries, key)].block,
    )
}

/// No key stands at two places.
spec fn keys_differ<'a>(entries: Seq<CacheSlot<'a>>) -> bool {
    forall|i: int, j: int|
        0 <= i < j < entries.len() ==> (#[trigger] entries[i]).key != (#[trigger] entries[j]).key
}

impl<'a> ActionCache<'a> {
    /// The blocks by their keys.
    pub closed spec fn blocks(self) -> Map<CacheKey, CachedBlock<'a>> {
        block_map(self.entries@)
    }

    /// The keys, that of the block used longest ago first.
    pub closed spec fn recency(self) -> Seq<CacheKey> {
        self.lru@
    }

    /// The parts agree with each other: each key stands once in the order of use and once among
    /// the entries, and the actions are counted.
    closed spec fn linked(self) -> bool {
        &&& keys_differ(self.entries@)
        &&& self.lru@.no_duplicates()
        &&& self.entries@.len() == self.lru@.len()
        &&& forall|key: CacheKey| #[trigger]
            self.lru@.contains(key) <==> entered(self.entries@, key)
        &&& self.action_count == total_actions(self.lru@, block_map(self.entries@))
    }

    /// The parts agree, all is within the limits, and each block is the decoding of its code.
    pub closed spec fn wf(self) -> bool {
        &&& self.linked()
        &&& within_limits(self.lru@, block_map(self.entries@))
        &&& forall|key: CacheKey|
            self.blocks().contains_key(key) ==> is_decoding(key, #[trigger] self.blocks()[key])
    }

    pub fn new() -> (cache: ActionCache<'a>)
        ensures
            cache.wf(),
            cache.blocks() == Map::<CacheKey, CachedBlock<'a>>::empty(),
            cache.recency() == Seq::<CacheKey>::empty(),
    {
        let cache = ActionCache { entries: Vec::new(), lru: VecDeque::new(), action_count: 0 };
        assert(cache.blocks() =~= Map::<CacheKey, CachedBlock<'a>>::empty());
        cache
    }

    /// The number of blocks that are kept.
    pub fn len(&self) -> (len: usize)
        requires
            self.wf(),
        ensures
            len == self.recency().len(),
    {
        self.entries.len()
    }

    /// The place of a key among the entries.
    fn find(&self, key: CacheKey) -> (place: Option<usize>)
        ensures
            match place {
                Some(i) => i < self.entries@.len() && self.entries@[i as int].key == key,
                None => !entered(self.entries@, key),
            },
    {
        let mut i: usize = 0;
        while i < self.entries.len()
            invariant
                i <= self.entries.len(),
                forall|j: int| 0 <= j < i ==> (#[trigger] self.entries@[j]).key != key,
            decreases self.entries.len() - i,
        {
            if self.entries[i].key == key {
                return Some(i);
            }
            i = i + 1;
        }
        None
    }

    /// Makes a key the last used.
    fn touch(&mut self, key: CacheKey)
        requires
            old(self).lru@.no_duplicates(),
            old(self).lru@.len() < usize::MAX,
        ensures
            final(self).lru@ == touched(old(self).lru@, key),
            final(self).entries == old(self).entries,
            final(self).action_count == old(self).action_count,
    {
        let ghost keys = self.lru@;
        let mut i: usize = 0;
        while i < self.lru.len()
            invariant_except_break
                self.lru@ == keys,
            invariant
                i <= keys.len(),
                keys == old(self).lru@,
                keys.no_duplicates(),
                self.entries == old(self).entries,
                self.action_count == old(self).action_count,
                forall|j: int| 0 <= j < i ==> keys[j] != key,
            ensures
                self.lru@ == (if keys.contains(key) {
                    keys.remove(keys.index_of(key))
                } else {
                    keys
                }),
            decreases keys.len() - i,
        {
            if self.lru[i] == key {
                self.lru.remove(i);
                assert(keys.contains(key));
                assert(keys.index_of(key) == i);
                break;
            }
            i = i + 1;
        }
        self.lru.push_back(key);
    }

    /// Lets blocks go, those used longest ago first, until the rest is within the limits.
    fn evict(&mut self)
        requires
            old(self).linked(),
        ensures
            final(self).linked(),
            within_limits(final(self).recency(), final(self).blocks()),
            final(self).recency() == kept(old(self).recency(), old(self).blocks()),
            final(self).blocks() == old(self).blocks().restrict(final(self).recency().to_set()),
    {
        let ghost keys = self.lru@;
        let ghost all = block_map(self.entries@);
        while self.entries.len() > MAX_BLOCKS || self.action_count > MAX_ACTIONS
            invariant
                self.linked(),
                keys == old(self).lru@,
                all == block_map(old(self).entries@),
                kept(self.lru@, block_map(self.entries@)) == kept(keys, all),
                forall|key: CacheKey| #[trigger]
                    self.lru@.contains(key) ==> all.contains_key(key) && all[key] == block_map(
                        self.entries@,
                    )[key],
            decreases self.lru@.len(),
        {
            let ghost before = *self;
            let ghost blocks = block_map(self.entries@);
            let key = match self.lru.pop_front() {
                Some(key) => key,
                None => {
                    assert(false);
                    return ;
                },
            };
            assert(before.lru@[0] == key);
            assert(self.lru@ =~= before.lru@.skip(1));
            assert(before.lru@.contains(key));
            assert forall|other: CacheKey| #[trigger]
                self.lru@.contains(other) <==> before.lru@.contains(other) && other != key by {
                lemma_skip_contains(before.lru@, other);
            }
            if let Some(place) = self.find(key) {
                proof {
                    lemma_place(self.entries@, place as int);
                    lemma_entries_remove(self.entries@, place as int);
                    lemma_total_frame(self.lru@, blocks, blocks.remove(key));
                    lemma_kept_frame(self.lru@, blocks, blocks.remove(key));
                    assert(self.action_count == blocks[key].actions@.len() + total_actions(
                        self.lru@,
                        blocks,
                    ));
                }
                let slot = self.entries.remove(place);
                self.action_count = self.action_count - slot.block.actions.len();
            }
            assert forall|other: CacheKey| #[trigger]
                self.lru@.contains(other) <==> entered(self.entries@, other) by {
                assert(before.lru@.contains(other) <==> entered(before.entries@, other));
                assert(block_map(self.entries@).contains_key(other) <==> blocks.contains_key(other)
                    && other != key);
            }
        }
        proof {
            let rest = block_map(self.entries@);
            assert(rest =~= all.restrict(self.lru@.to_set())) by {
                assert forall|key: CacheKey| rest.contains_key(key) <==> all.restrict(
                    self.lru@.to_set(),
                ).contains_key(key) by {
                    assert(self.lru@.contains(key) <==> entered(self.entries@, key));
                }
            }
        }
    }

    /// The block of some code: the one that is kept or, for code that is not, a new one, which is
    /// then kept. Nothing for code that cannot be kept, with no actions or with too many.
    pub fn get_or_decode(
        &mut self,
        code: &SwfSlice<'a>,
        version: u8,
    ) -> (block: Option<Rc<CachedBlock<'a>>>)
        requires
            old(self).wf(),
            cacheable(*code, version) ==> code.start <= code.end,
        ensures
            final(self).wf(),
            ({
                let key = key_of(*code, version);
                let items = decoded_slice(*code, version);
                if !cacheable(*code, version) {
                    &&& block is None
                    &&& *final(self) == *old(self)
                } else if old(self).blocks().contains_key(key) {
                    &&& block is Some
                    &&& *block->0 == old(self).blocks()[key]
                    &&& final(self).blocks() == old(self).blocks()
                    &&& final(self).recency() == touched(old(self).recency(), key)
                } else if items is None || items->0.len() == 0 || items->0.len() > MAX_ACTIONS {
                    &&& block is None
                    &&& *final(self) == *old(self)
                } else {
                    let all = old(self).blocks().insert(key, *block->0);
                    &&& block is Some
                    &&& block->0.movie == code.movie
                    &&& holds_indices(items->0, block->0.actions@)
                    &&& final(self).recency() == kept(old(self).recency().push(key), all)
                    &&& final(self).blocks() == all.restrict(final(self).recency().to_set())
                }
            }),
    {
        if code.movie.version != version || !code.movie.data_complete || code.end
            > code.movie.data.len() {
            return None;
        }
        let key = CacheKey {
            movie: code.movie.id,
            start: code.start,
            len: code.len(),
            version,
        };
        let ghost keys = self.lru@;
        let ghost blocks = block_map(self.entries@);
        proof {
            assert(keys.contains(key) <==> entered(self.entries@, key));
        }
        if let Some(place) = self.find(key) {
            proof {
                lemma_place(self.entries@, place as int);
                lemma_touched(keys, key, blocks);
            }
            let block = self.entries[place].block.clone();
            self.touch(key);
            assert forall|other: CacheKey| #[trigger]
                self.lru@.contains(other) <==> entered(self.entries@, other) by {
                assert(touched(keys, key).contains(other) <==> keys.contains(other));
            }
            assert(self.blocks() == old(self).blocks());
            return Some(block);
        }
        let block = match decode(code, version) {
            Some(block) => block,
            None => {
                return None;
            },
        };
        if block.actions.len() == 0 || block.actions.len() > MAX_ACTIONS {
            return None;
        }
        let block = Rc::new(block);
        proof {
            lemma_entries_push(self.entries@, CacheSlot { key, block });
            lemma_total_push(keys, key, blocks.insert(key, held(block)));
            lemma_total_frame(keys, blocks, blocks.insert(key, held(block)));
        }
        self.action_count = self.action_count + block.actions.len();
        self.entries.push(CacheSlot { key, block: block.clone() });
        self.touch(key);
        assert(self.linked()) by {
            assert forall|other: CacheKey| #[trigger]
                self.lru@.contains(other) <==> entered(self.entries@, other) by {
                lemma_push_contains(keys, key, other);
                assert(keys.contains(other) <==> entered(old(self).entries@, other));
                assert(block_map(self.entries@).contains_key(other) <==> block_map(
                    old(self).entries@,
                ).contains_key(other) || other == key);
            }
        }
        let ghost grown = *self;
        self.evict();
        assert(is_decoding(key, *block));
        assert forall|other: CacheKey| self.blocks().contains_key(other) implies is_decoding(
            other,
            #[trigger] self.blocks()[other],
        ) by {
            assert(grown.blocks().contains_key(other));
            if other != key {
                assert(old(self).blocks().contains_key(other));
                assert(is_decoding(other, old(self).blocks()[other]));
            }
        }
        Some(block)
    }
}

proof fn lemma_skip_contains(keys: Seq<CacheKey>, key: CacheKey)
    requires
        keys.len() > 0,
        keys.no_duplicates(),
    ensures
        keys.skip(1).contains(key) <==> keys.contains(key) && key != keys[0],
{
    let rest = keys.skip(1);
    if rest.contains(key) {
        let i = rest.index_of(key);
        assert(keys[i + 1] == key);
    }
    if keys.contains(key) && key != keys[0] {
        let i = keys.index_of(key);
        assert(rest[i - 1] == key);
    }
}

proof fn lemma_push_contains(keys: Seq<CacheKey>, last: CacheKey, key: CacheKey)
    ensures
        keys.push(last).contains(key) <==> keys.contains(key) || key == last,
{
    let grown = keys.push(last);
    if keys.contains(key) {
        assert(grown[keys.index_of(key)] == key);
    }
    assert(grown[keys.len() as int] == last);
    if grown.contains(key) && key != last {
        assert(keys[grown.index_of(key)] == key);
    }
}

proof fn lemma_place<'a>(entries: Seq<CacheSlot<'a>>, i: int)
    requires
        keys_differ(entries),
        0 <= i < entries.len(),
    ensures
        block_map(entries).contains_key(entries[i].key),
        block_map(entries)[entries[i].key] == *entries[i].block,
{
    let key = entries[i].key;
    assert(entered(entries, key));
    let j = place_of(entries, key);
    assert(0 <= j < entries.len() && entries[j].key == key);
    if i < j {
        assert(entries[i].key != entries[j].key);
    } else if j < i {
        assert(entries[j].key != entries[i].key);
    }
}

/// An entry that is left after another was removed stood among all of them.
proof fn lemma_place_before_remove<'a>(entries: Seq<CacheSlot<'a>>, i: int, key: CacheKey)
    requires
        keys_differ(entries),
        0 <= i < entries.len(),
        entered(entries.remove(i), key),
    ensures
        key != entries[i].key,
        entered(entries, key),
        block_map(entries)[key] == *entries.remove(i)[place_of(entries.remove(i), key)].block,
{
    let rest = entries.remove(i);
    let a = place_of(rest, key);
    assert(rest[a].key == key);
    let from_a = if a < i {
        a
    } else {
        a + 1
    };
    assert(rest[a] == entries[from_a]);
    if from_a < i {
        assert(entries[from_a].key != entries[i].key);
    } else {
        assert(entries[i].key != entries[from_a].key);
    }
    lemma_place(entries, from_a);
}

proof fn lemma_entries_remove<'a>(entries: Seq<CacheSlot<'a>>, i: int)
    requires
        keys_differ(entries),
        0 <= i < entries.len(),
    ensures
        keys_differ(entries.remove(i)),
        block_map(entries.remove(i)) == block_map(entries).remove(entries[i].key),
{
    let rest = entries.remove(i);
    let key = entries[i].key;
    assert forall|a: int, b: int| 0 <= a < b < rest.len() implies (#[trigger] rest[a]).key != (
    #[trigger] rest[b]).key by {
        let from_a = if a < i {
            a
        } else {
            a + 1
        };
        let from_b = if b < i {
            b
        } else {
            b + 1
        };
        assert(rest[a] == entries[from_a] && rest[b] == entries[from_b]);
    }
    let map = block_map(rest);
    let expected = block_map(entries).remove(key);
    assert forall|other: CacheKey| #[trigger]
        map.dom().contains(other) <==> expected.dom().contains(other) by {
        if entered(rest, other) {
            lemma_place_before_remove(entries, i, other);
        }
        if entered(entries, other) && other != key {
            let b = place_of(entries, other);
            assert(entries[b].key == other);
            assert(rest[if b < i {
                b
            } else {
                b - 1
            }] == entries[b]);
        }
    }
    assert forall|other: CacheKey| #[trigger] map.dom().contains(other) implies map[other]
        == expected[other] by {
        lemma_place_before_remove(entries, i, other);
    }
    assert(map =~= expected);
}

proof fn lemma_entries_push<'a>(entries: Seq<CacheSlot<'a>>, slot: CacheSlot<'a>)
    requires
        keys_differ(entries),
        !entered(entries, slot.key),
    ensures
        keys_differ(entries.push(slot)),
        block_map(entries.push(slot)) == block_map(entries).insert(slot.key, *slot.block),
{
    let grown = entries.push(slot);
    assert forall|a: int, b: int| 0 <= a < b < grown.len() implies (#[trigger] grown[a]).key != (
    #[trigger] grown[b]).key by {
        assert(grown[a] == entries[a]);
        if b < entries.len() {
            assert(grown[b] == entries[b]);
        }
    }
    let map = block_map(grown);
    let expected = block_map(entries).insert(slot.key, held(slot.block));
    lemma_place(grown, entries.len() as int);
    assert forall|other: CacheKey| #[trigger]
        map.dom().contains(other) <==> expected.dom().contains(other) by {
        if entered(entries, other) {
            let a = place_of(entries, other);
            assert(entries[a].key == other);
            assert(grown[a] == entries[a]);
        }
        if entered(grown, other) && other != slot.key {
            let a = place_of(grown, other);
            assert(grown[a].key == other);
            assert(grown[a] == entries[a]);
        }
    }
    assert forall|other: CacheKey| #[trigger] map.dom().contains(other) implies map[other]
        == expected[other] by {
        if other != slot.key {
            let a = place_of(grown, other);
            assert(grown[a].key == other);
            assert(grown[a] == entries[a]);
            lemma_place(entries, a);
        }
    }
    assert(map =~= expected);
}

/// The number of actions depends on the blocks under the keys alone.
proof fn lemma_total_frame<'a>(
    keys: Seq<CacheKey>,
    a: Map<CacheKey, CachedBlock<'a>>,
    b: Map<CacheKey, CachedBlock<'a>>,
)
    requires
        forall|key: CacheKey| #[trigger] keys.contains(key) ==> a[key] == b[key],
    ensures
        total_actions(keys, a) == total_actions(keys, b),
    decreases keys.len(),
{
    if keys.len() > 0 {
        assert(keys.contains(keys[0]));
        assert forall|key: CacheKey| #[trigger] keys.skip(1).contains(key) implies a[key]
            == b[key] by {
            let i = keys.skip(1).index_of(key);
            assert(keys[i + 1] == key);
            assert(keys.contains(key));
        }
        lemma_total_frame(keys.skip(1), a, b);
    }
}

/// The keys that stay depend on the blocks under the keys alone.
proof fn lemma_kept_frame<'a>(
    keys: Seq<CacheKey>,
    a: Map<CacheKey, CachedBlock<'a>>,
    b: Map<CacheKey, CachedBlock<'a>>,
)
    requires
        forall|key: CacheKey| #[trigger] keys.contains(key) ==> a[key] == b[key],
    ensures
        kept(keys, a) == kept(keys, b),
    decreases keys.len(),
{
    lemma_total_frame(keys, a, b);
    if keys.len() > 0 {
        assert forall|key: CacheKey| #[trigger] keys.skip(1).contains(key) implies a[key]
            == b[key] by {
            let i = keys.skip(1).index_of(key);
            assert(keys[i + 1] == key);
            assert(keys.contains(key));
        }
        lemma_kept_frame(keys.skip(1), a, b);
    }
}

proof fn lemma_total_push<'a>(
    keys: Seq<CacheKey>,
    key: CacheKey,
    blocks: Map<CacheKey, CachedBlock<'a>>,
)
    ensures
        total_actions(keys.push(key), blocks) == total_actions(keys, blocks)
            + blocks[key].actions@.len(),
    decreases keys.len(),
{
    let grown = keys.push(key);
    if keys.len() == 0 {
        assert(grown.skip(1) =~= Seq::<CacheKey>::empty());
        assert(total_actions(grown.skip(1), blocks) == 0);
    } else {
        assert(grown.skip(1) =~= keys.skip(1).push(key));
        lemma_total_push(keys.skip(1), key, blocks);
    }
}

proof fn lemma_total_remove<'a>(
    keys: Seq<CacheKey>,
    i: int,
    blocks: Map<CacheKey, CachedBlock<'a>>,
)
    requires
        0 <= i < keys.len(),
    ensures
        total_actions(keys.remove(i), blocks) + blocks[keys[i]].actions@.len()
            == total_actions(keys, blocks),
    decreases keys.len(),
{
    let rest = keys.remove(i);
    if i == 0 {
        assert(rest =~= keys.skip(1));
    } else {
        assert(rest.skip(1) =~= keys.skip(1).remove(i - 1));
        lemma_total_remove(keys.skip(1), i - 1, blocks);
    }
}

/// A use changes the order of the keys alone.
proof fn lemma_touched<'a>(
    keys: Seq<CacheKey>,
    key: CacheKey,
    blocks: Map<CacheKey, CachedBlock<'a>>,
)
    requires
        keys.no_duplicates(),
        keys.contains(key),
    ensures
        touched(keys, key).no_duplicates(),
        touched(keys, key).len() == keys.len(),
        total_actions(touched(keys, key), blocks) == total_actions(keys, blocks),
        forall|other: CacheKey| #[trigger]
            touched(keys, key).contains(other) <==> keys.contains(other),
{
    let i = keys.index_of(key);
    let rest = keys.remove(i);
    lemma_total_remove(keys, i, blocks);
    lemma_total_push(rest, key, blocks);
    assert forall|other: CacheKey| #[trigger]
        touched(keys, key).contains(other) <==> keys.contains(other) by {
        lemma_push_contains(rest, key, other);
        if rest.contains(other) {
            let j = rest.index_of(other);
            assert(keys[if j < i {
                j
            } else {
                j + 1
            }] == other);
        }
        if keys.contains(other) && other != key {
            let j = keys.index_of(other);
            assert(rest[if j < i {
                j
            } else {
                j - 1
            }] == other);
        }
    }
    assert forall|a: int, b: int|
        0 <= a < touched(keys, key).len() && 0 <= b < touched(keys, key).len() && a
            != b implies touched(keys, key)[a] != touched(keys, key)[b] by {
        let from_a = if a < i {
            a
        } else {
            a + 1
        };
        let from_b = if b < i {
            b
        } else {
            b + 1
        };
        if a < rest.len() {
            assert(rest[a] == keys[from_a]);
        }
        if b < rest.len() {
            assert(rest[b] == keys[from_b]);
        }
    }
}

/// The keys that stay are the longest end of all keys that is within the limits.
pub proof fn kept_is_longest_end_within_limits<'a>(
    keys: Seq<CacheKey>,
    blocks: Map<CacheKey, CachedBlock<'a>>,
)
    ensures
        kept(keys, blocks).len() <= keys.len(),
        kept(keys, blocks) == keys.skip(keys.len() - kept(keys, blocks).len()),
        within_limits(kept(keys, blocks), blocks),
        forall|n: int|
            0 <= n < keys.len() - kept(keys, blocks).len() ==> !within_limits(
                #[trigger] keys.skip(n),
                blocks,
            ),
    decreases keys.len(),
{
    assert(keys.skip(0) =~= keys);
    if keys.len() > 0 && !within_limits(keys, blocks) {
        let rest = keys.skip(1);
        kept_is_longest_end_within_limits(rest, blocks);
        let gone = rest.len() - kept(rest, blocks).len();
        assert(rest.skip(gone) =~= keys.skip(gone + 1));
        assert forall|n: int| 0 <= n < gone + 1 implies !within_limits(
            #[trigger] keys.skip(n),
            blocks,
        ) by {
            if n > 0 {
                assert(keys.skip(n) =~= rest.skip(n - 1));
            }
        }
    }
}

/// A block that was just added stays, with its key as the last used.
pub proof fn newest_block_stays<'a>(
    keys: Seq<CacheKey>,
    key: CacheKey,
    blocks: Map<CacheKey, CachedBlock<'a>>,
)
    requires
        blocks[key].actions@.len() <= MAX_ACTIONS,
    ensures
        kept(keys.push(key), blocks).len() > 0,
        kept(keys.push(key), blocks).last() == key,
    decreases keys.len(),
{
    let all = keys.push(key);
    if keys.len() == 0 {
        lemma_total_push(keys, key, blocks);
    } else {
        assert(all.skip(1) =~= keys.skip(1).push(key));
        newest_block_stays(keys.skip(1), key, blocks);
    }
}

/// Code is decoded once: the block that a lookup has added is what the next lookup finds.
pub proof fn added_block_is_found_again<'a>(
    keys: Seq<CacheKey>,
    key: CacheKey,
    blocks: Map<CacheKey, CachedBlock<'a>>,
    block: CachedBlock<'a>,
)
    requires
        block.actions@.len() <= MAX_ACTIONS,
    ensures
        ({
            let all = blocks.insert(key, block);
            let after = all.restrict(kept(keys.push(key), all).to_set());
            after.contains_key(key) && after[key] == block
        }),
{
    let all = blocks.insert(key, block);
    newest_block_stays(keys, key, all);
    let recency = kept(keys.push(key), all);
    assert(recency.contains(recency.last()));
    assert(recency.to_set().contains(key));
    assert(all.restrict(recency.to_set()).dom().contains(key));
}

impl<'a> ActionCache<'a> {
    /// A cache never holds more than its limits, and holds a block under each of the keys in the
    /// order of their use, once.
    pub proof fn limits_hold(self)
        requires
            self.wf(),
        ensures
            within_limits(self.recency(), self.blocks()),
            self.recency().len() <= 128,
            total_actions(self.recency(), self.blocks()) <= 32768,
            self.recency().no_duplicates(),
            forall|key: CacheKey| #[trigger]
                self.recency().contains(key) <==> self.blocks().contains_key(key),
    {
        assert forall|key: CacheKey| #[trigger]
            self.recency().contains(key) <==> self.blocks().contains_key(key) by {
            assert(self.lru@.contains(key) <==> entered(self.entries@, key));
        }
    }

    /// A kept block belongs to the movie, the version and the place of its key: the movie is
    /// loaded in full, has the version, and holds the code.
    pub proof fn block_belongs_to_its_key(self, key: CacheKey)
        requires
            self.wf(),
            self.blocks().contains_key(key),
        ensures
            self.blocks()[key].movie.id == key.movie,
            self.blocks()[key].movie.version == key.version,
            self.blocks()[key].movie.data_complete,
            key.start + key.len <= self.blocks()[key].movie.data@.len(),
            self.recency().contains(key),
    {
        assert(is_decoding(key, self.blocks()[key]));
        assert(self.lru@.contains(key) <==> entered(self.entries@, key));
    }

    /// The block that is kept for some code is what the code decodes to, where the movie under
    /// the same identity is still the same.
    pub proof fn cached_block_is_decoding(self, code: SwfSlice<'a>, version: u8)
        requires
            self.wf(),
            code.start <= code.end,
            self.blocks().contains_key(key_of(code, version)),
            self.blocks()[key_of(code, version)].movie == code.movie,
        ensures
            decoded_slice(code, version) is Some,
            holds_indices(
                decoded_slice(code, version)->0,
                self.blocks()[key_of(code, version)].actions@,
            ),
    {
        let key = key_of(code, version);
        assert(is_decoding(key, self.blocks()[key]));
    }
}

/// A jump leads to the action that begins at its position, or to the end of the block where none
/// does: never beyond the end.
pub proof fn jumps_stay_in_block(items: Seq<Decoded>, actions: Seq<CachedAction>, i: int)
    requires
        holds_indices(items, actions),
        0 <= i < actions.len(),
        actions[i].jump_target is Some,
    ensures
        items[i].target is Some,
        ({
            let index = actions[i].jump_target->0;
            let position = items[i].target->0;
            if index < actions.len() {
                items[index as int].at == position
            } else {
                &&& index == actions.len()
                &&& forall|k: int|
                    0 <= k < items.len() ==> (#[trigger] items[k]).at != position
            }
        }),
{
    let action = actions[i];
}

/// The first action of some code begins where decoding began, and each other where the one before
/// it ends.
pub proof fn actions_follow_each_other(
    code: Seq<u8>,
    version: u8,
    start: int,
    lead: int,
    pos: int,
    i: int,
)
    requires
        decoded(code, version, start, lead, pos) is Some,
        0 <= i < decoded(code, version, start, lead, pos)->0.len(),
    ensures
        ({
            let items = decoded(code, version, start, lead, pos)->0;
            items[i].at == (if i == 0 {
                lead + pos
            } else {
                items[i - 1].next
            })
        }),
    decreases code.len() - pos,
{
    let items = decoded(code, version, start, lead, pos)->0;
    if i > 0 {
        let next = items[0].next - lead;
        let rest = decoded(code, version, start, lead, next)->0;
        assert(items =~= seq![items[0]] + rest);
        actions_follow_each_other(code, version, start, lead, next, i - 1);
    }
}

/// A jump goes the whole of its distance from the position after it, forwards or backwards, and is
/// kept only where it ends inside the code or right at its end. What holds code of its own, or
/// waits for a frame, is not kept at all; everything else stays and does not jump.
pub proof fn jump_goes_its_whole_distance(kind: ActionKind, start: int, end: int, next: int)
    ensures
        kind matches ActionKind::Jump { offset } ==> landing(kind, start, end, next) == (if start
            <= start + next + offset && start + next + offset <= end {
            Some(Some(next + offset))
        } else {
            None
        }),
        kind matches ActionKind::If { offset } ==> landing(kind, start, end, next) == (if start
            <= start + next + offset && start + next + offset <= end {
            Some(Some(next + offset))
        } else {
            None
        }),
        kind is Try || kind is With || kind is WaitForFrame || kind is WaitForFrame2 ==> landing(
            kind,
            start,
            end,
            next,
        ) is None,
        kind is End || kind is Other ==> landing(kind, start, end, next) == Some(None::<int>),
{
}

/// Each decoded action is what is read at its position, ends before the bytes that come after it,
/// and jumps as far from there as it says.
pub proof fn actions_are_read_where_they_stand(
    code: Seq<u8>,
    version: u8,
    start: int,
    lead: int,
    pos: int,
    i: int,
)
    requires
        decoded(code, version, start, lead, pos) is Some,
        0 <= i < decoded(code, version, start, lead, pos)->0.len(),
    ensures
        ({
            let item = decoded(code, version, start, lead, pos)->0[i];
            &&& pos <= item.at - lead < code.len()
            &&& read_result(code.skip(item.at - lead), version) == Some(item.read)
            &&& item.next == lead + code.len() - item.read.remaining
            &&& item.target == (match item.read.kind {
                ActionKind::If { offset } => Some(item.next + offset),
                ActionKind::Jump { offset } => Some(item.next + offset),
                _ => None,
            })
            &&& item.target matches Some(target) ==> 0 <= target <= code.len()
            &&& !(item.read.kind is Try || item.read.kind is With || item.read.kind is WaitForFrame
                || item.read.kind is WaitForFrame2)
        }),
    decreases code.len() - pos,
{
    let items = decoded(code, version, start, lead, pos)->0;
    if i > 0 {
        let next = items[0].next - lead;
        let rest = decoded(code, version, start, lead, next)->0;
        assert(items =~= seq![items[0]] + rest);
        actions_are_read_where_they_stand(code, version, start, lead, next, i - 1);
    }
}

/// Decoding goes on to the first end, or else to the last byte: only the last action is an end,
/// and if it is not, nothing comes after it.
pub proof fn decoding_goes_on_to_the_end(
    code: Seq<u8>,
    version: u8,
    start: int,
    lead: int,
    pos: int,
    i: int,
)
    requires
        pos < code.len(),
        decoded(code, version, start, lead, pos) is Some,
    ensures
        ({
            let items = decoded(code, version, start, lead, pos)->0;
            &&& items.len() > 0
            &&& 0 <= i < items.len() - 1 ==> items[i].read.kind != ActionKind::End
            &&& items.last().read.kind != ActionKind::End ==> items.last().next == lead
                + code.len()
        }),
    decreases code.len() - pos,
{
    let items = decoded(code, version, start, lead, pos)->0;
    if items[0].read.kind != ActionKind::End {
        let next = items[0].next - lead;
        let rest = decoded(code, version, start, lead, next)->0;
        assert(items =~= seq![items[0]] + rest);
        if next < code.len() {
            decoding_goes_on_to_the_end(code, version, start, lead, next, i - 1);
        }
    }
}

/// Whether position `p` of some code is reached from position `pos` by reading one action after
/// the other.
pub open spec fn is_reached(code: Seq<u8>, version: u8, pos: int, p: int) -> bool
    decreases code.len() - pos,
{
    if p == pos {
        true
    } else if pos >= code.len() {
        false
    } else {
        match read_result(code.skip(pos), version) {
            Some(read) => {
                let next = code.len() - read.remaining;
                read.kind != ActionKind::End && pos < next && is_reached(code, version, next, p)
            },
            None => false,
        }
    }
}

/// Whether the action at position `p` of some code stops the decoding: it cannot be read, it is of
/// a kind that is not kept, its jump leaves the code, or it takes no byte.
pub open spec fn is_obstacle(code: Seq<u8>, version: u8, lead: int, p: int) -> bool {
    match read_result(code.skip(p), version) {
        None => true,
        Some(read) => {
            let next = code.len() - read.remaining;
            match read.kind {
                ActionKind::Try => true,
                ActionKind::With => true,
                ActionKind::WaitForFrame => true,
                ActionKind::WaitForFrame2 => true,
                ActionKind::If { offset } => lead + next + offset < 0 || lead + next + offset
                    > code.len() || next <= p,
                ActionKind::Jump { offset } => lead + next + offset < 0 || lead + next + offset
                    > code.len() || next <= p,
                ActionKind::End => false,
                ActionKind::Other => next <= p,
            }
        },
    }
}

/// Code is refused for one reason only: some action that decoding reaches stops it.
pub proof fn refused_code_has_an_obstacle(
    code: Seq<u8>,
    version: u8,
    start: int,
    lead: int,
    pos: int,
)
    ensures
        decoded(code, version, start, lead, pos) is None <==> exists|p: int|
            #![trigger is_reached(code, version, pos, p)]
            p < code.len() && is_reached(code, version, pos, p) && is_obstacle(code, version, lead, p),
    decreases code.len() - pos,
{
    if pos < code.len() {
        assert(is_reached(code, version, pos, pos));
        if !is_obstacle(code, version, lead, pos) {
            let read = read_result(code.skip(pos), version)->0;
            let next = code.len() - read.remaining;
            if read.kind != ActionKind::End {
                refused_code_has_an_obstacle(code, version, start, lead, next);
                if decoded(code, version, start, lead, next) is None {
                    let p = choose|p: int|
                        #![trigger is_reached(code, version, next, p)]
                        p < code.len() && is_reached(code, version, next, p) && is_obstacle(code, version, lead, p);
                    assert(is_reached(code, version, pos, p));
                }
                assert forall|p: int|
                    #![trigger is_reached(code, version, pos, p)]
                    p < code.len() && is_reached(code, version, pos, p) && is_obstacle(code, version, lead, p) implies is_reached(code, version, next, p) by {}
            }
        }
    }
}

/// Where a jump of a block leads: to the action that begins as far from the position after the
/// jump as it says, or to the end of the block where no action begins there. Other actions have
/// no target, and all of them are those read from the bytes of the code.
pub proof fn block_jumps_go_their_whole_distance(
    code: SwfSlice,
    version: u8,
    actions: Seq<CachedAction>,
    i: int,
)
    requires
        code.start <= code.end <= code.movie.data@.len(),
        decoded_slice(code, version) is Some,
        holds_indices(decoded_slice(code, version)->0, actions),
        0 <= i < actions.len(),
    ensures
        ({
            let items = decoded_slice(code, version)->0;
            let after = code.movie.data@.len() - code.end;
            let jump = match items[i].read.kind {
                ActionKind::If { offset } => Some(offset),
                ActionKind::Jump { offset } => Some(offset),
                _ => None,
            };
            &&& actions.len() == items.len()
            &&& read_result(
                code.movie.data@.subrange(code.start + items[i].at - after, code.end as int),
                version,
            ) == Some(items[i].read)
            &&& actions[i].action == items[i].read.action
            &&& actions[i].next == code.movie.data@.len() - items[i].read.remaining - code.start
            &&& items[i].at == (if i == 0 {
                after
            } else {
                actions[i - 1].next as int
            })
            &&& jump is None ==> actions[i].jump_target is None
            &&& jump is Some ==> {
                let position = actions[i].next + jump->0;
                &&& 0 <= position <= code.end - code.start
                &&& actions[i].jump_target is Some
                &&& actions[i].jump_target->0 <= actions.len()
                &&& actions[i].jump_target->0 < actions.len()
                    ==> items[actions[i].jump_target->0 as int].at == position
                &&& actions[i].jump_target->0 == actions.len() ==> forall|k: int|
                    0 <= k < items.len() ==> (#[trigger] items[k]).at != position
            }
        }),
{
    let bytes = code.bytes();
    let start = code.start as int;
    let lead = code.movie.data@.len() - code.end;
    let items = decoded_slice(code, version)->0;
    actions_are_read_where_they_stand(bytes, version, start, lead, 0, i);
    actions_follow_each_other(bytes, version, start, lead, 0, i);
    let action = actions[i];
    if i > 0 {
        let before = actions[i - 1];
    }
    assert(bytes.skip(items[i].at - lead) =~= code.movie.data@.subrange(
        start + items[i].at - lead,
        code.end as int,
    ));
    if action.jump_target is Some {
        jumps_stay_in_block(items, actions, i);
    }
}

/// Some code of a movie is kept only for the version of the movie, once the movie is loaded and
/// reaches to the end of the code; and blocks are told apart by movie, place, length and version.
pub proof fn keys_tell_code_apart(a: SwfSlice, b: SwfSlice, version: u8, other: u8)
    requires
        a.start <= a.end,
        b.start <= b.end,
    ensures
        cacheable(a, version) <==> a.movie.version == version && a.movie.data_complete && a.end
            <= a.movie.data@.len(),
        key_of(a, version) == key_of(b, other) <==> a.movie.id == b.movie.id && a.start == b.start
            && a.end == b.end && version == other,
{
}

/// The limits are one hundred and twenty-eight blocks and 32768 actions, and the actions of all
/// blocks count.
pub proof fn every_block_counts<'a>(
    keys: Seq<CacheKey>,
    key: CacheKey,
    blocks: Map<CacheKey, CachedBlock<'a>>,
)
    ensures
        total_actions(Seq::empty(), blocks) == 0,
        total_actions(keys.push(key), blocks) == total_actions(keys, blocks)
            + blocks[key].actions@.len(),
        within_limits(keys, blocks) <==> keys.len() <= 128 && total_actions(keys, blocks) <= 32768,
{
    lemma_total_push(keys, key, blocks);
}

/// A block that is used again becomes the last used, and all others keep their order.
pub proof fn used_block_becomes_last(keys: Seq<CacheKey>, key: CacheKey)
    requires
        keys.no_duplicates(),
    ensures
        touched(keys, key).no_duplicates(),
        !keys.contains(key) ==> touched(keys, key) == keys + seq![key],
        keys.contains(key) ==> exists|place: int|
            0 <= place < keys.len() && #[trigger] keys[place] == key && touched(keys, key)
                == keys.take(place) + keys.skip(place + 1) + seq![key],
{
    if keys.contains(key) {
        let place = keys.index_of(key);
        lemma_touched(keys, key, Map::<CacheKey, CachedBlock<'static>>::empty());
        assert(keys[place] == key);
        assert(touched(keys, key) =~= keys.take(place) + keys.skip(place + 1) + seq![key]);
    } else {
        assert(touched(keys, key) =~= keys + seq![key]);
    }
}

} // verus!
