//! Unpacking the files of a game.
use crate::bytes;
use crate::error;
use crate::error::{ExtractError, Fault, Stop};
use crate::index::{Directory, Index};
use crate::laws;
use crate::layout;
use crate::layout::Block;
use crate::lookup;
use crate::names::{
    same_id, CDHD, DIGI, ENCD, EXCD, LECF, LFLF, LSC2, SCRP, TALK, TLKE, VERB,
};
use crate::output;
use crate::output::{Output, OutputFile, OutputView, Scope, ScriptOutput};
use crate::text;
use crate::walk;
use crate::walk::{ContainerView, Game, Run};
use std::collections::HashMap;
use vstd::array::*;
use vstd::prelude::*;
use vstd::slice::*;
use vstd::std_specs::hash::*;
use vstd::string::*;
use vstd::utf8::*;

verus! {

broadcast use group_hash_axioms;

/// What stays the same while a file is unpacked.
pub struct Extractor<'a> {
    pub index: &'a Index,
    pub disk_number: u8,
    pub publish: bool,
    /// The file, without its mask.
    pub data: &'a [u8],
}

/// What is known of a container while its blocks are unpacked.
pub struct Container {
    /// The directory that the container's files go to.
    pub path: String,
    /// The room that the blocks belong to.
    pub room: i32,
    /// The object that the blocks belong to.
    pub object: u16,
    /// How many blocks of each kind were counted so far.
    pub counts: HashMap<u32, i32>,
    /// The names of the blocks so far, a line for each.
    pub map: String,
}

impl View for Container {
    type V = ContainerView;

    open spec fn view(&self) -> ContainerView {
        ContainerView {
            path: self.path@,
            room: self.room,
            object: self.object,
            counts: self.counts@,
            map: self.map@,
        }
    }
}

/// What a list of outputs says once another is appended.
proof fn lemma_views_push(outs: Seq<Output>, out: Output)
    ensures
        output::views(outs.push(out)) == output::views(outs).push(out@),
{
    assert(output::views(outs.push(out)) =~= output::views(outs).push(out@));
}

/// Reads the entry of a verb table that stands at `pos`.
fn read_verb(content: &[u8], pos: usize) -> (r: Option<(u8, u16)>)
    requires
        pos <= content@.len(),
    ensures
        match r {
            Some((number, offset)) => walk::verb_at(content@, pos as int) == Some(
                (number, offset as int),
            ),
            None => walk::verb_at(content@, pos as int) is None,
        },
{
    if pos >= content.len() {
        return None;
    }
    let number: u8 = content[pos];
    if number == 0 || content.len() - pos < 3 {
        return None;
    }
    Some((number, bytes::u16_at(content, pos + 1)))
}

impl Container {
    /// The path of what is called `name` in the container.
    fn path_in(&self, name: &str) -> (r: String)
        ensures
            r@ == walk::path_in(self@, name@),
    {
        let mut path: String = self.path.clone();
        path.append("/");
        path.append(name);
        path
    }

    /// Lists a block of that name.
    fn list(&mut self, name: &str)
        ensures
            final(self)@ == walk::listed(old(self)@, name@),
    {
        self.map.append(name);
        self.map.append("\n");
    }

    /// The list of what the container holds.
    fn listing(&self) -> (r: Output)
        ensures
            r@ == walk::listing(self@),
    {
        let mut path: String = self.path.clone();
        path.append("/.map");
        Output::Listing(OutputFile { path, data: self.map.as_str().as_bytes_vec() })
    }

    /// Numbers a block by counting the blocks of its kind. If it cannot be counted nothing changes.
    fn count_block(&mut self, id: &[u8; 4]) -> (r: Result<i32, Stop>)
        ensures
            match r {
                Ok(n) => walk::count_block(old(self)@, id@) == Ok::<(i32, ContainerView), Stop>(
                    (n, final(self)@),
                ),
                Err(stop) => walk::count_block(old(self)@, id@) == Err::<
                    (i32, ContainerView),
                    Stop,
                >(stop) && final(self)@ == old(self)@,
            },
    {
        let key: u32 = 0x100_0000 * (id[0] as u32) + 0x1_0000 * (id[1] as u32) + 0x100 * (
        id[2] as u32) + id[3] as u32;
        let before: i32 = match self.counts.get(&key) {
            Some(n) => *n,
            None => 0,
        };
        if before == i32::MAX {
            return Err(Stop::Fault(Fault::TooManyBlocks));
        }
        let number: i32 = before + 1;
        self.counts.insert(key, number);
        Ok(number)
    }
}

/// The number that a lookup came up with; `missing` if there is none.
fn found(r: Result<Option<i32>, Stop>, missing: ExtractError) -> (n: Result<i32, Stop>)
    ensures
        n == walk::found(lookup::looked_up(r), missing),
{
    match r {
        Err(stop) => Err(stop),
        Ok(None) => Err(Stop::Error(missing)),
        Ok(Some(n)) => Ok(n),
    }
}

impl<'a> Extractor<'a> {
    /// What stays the same.
    pub open spec fn game(&self) -> Game {
        Game { index: self.index@, disk: self.disk_number, publish: self.publish }
    }

    /// The number of a resource that starts with the header before `offset`.
    fn resource_number(&self, dir: &Directory, offset: usize, missing: ExtractError) -> (r: Result<
        i32,
        Stop,
    >)
        requires
            offset >= 8,
        ensures
            r == walk::found(
                lookup::object_number(self.index@, dir@, self.disk_number, offset - 8),
                missing,
            ),
    {
        found(lookup::find_object_number(self.index, dir, self.disk_number, offset - 8), missing)
    }

    /// Numbers a block that holds blocks. If it has no number nothing changes.
    fn number_nested(&self, c: &mut Container, id: &[u8; 4], offset: usize) -> (r: Result<
        i32,
        Stop,
    >)
        requires
            offset >= 8,
        ensures
            match r {
                Ok(n) => walk::number_nested(self.game(), old(c)@, id@, offset as int) == Ok::<
                    (i32, ContainerView),
                    Stop,
                >((n, final(c)@)),
                Err(stop) => walk::number_nested(self.game(), old(c)@, id@, offset as int) == Err::<
                    (i32, ContainerView),
                    Stop,
                >(stop) && final(c)@ == old(c)@,
            },
    {
        if same_id(id, &LECF) {
            Ok(self.disk_number as i32)
        } else if same_id(id, &LFLF) {
            let room: i32 = match found(
                lookup::find_lfl_number(self.disk_number, offset, self.index),
                ExtractError::LflNotInIndex,
            ) {
                Err(stop) => return Err(stop),
                Ok(n) => n,
            };
            c.room = room;
            Ok(room)
        } else if same_id(id, &DIGI) || same_id(id, &TALK) {
            self.resource_number(&self.index.sounds, offset, ExtractError::SoundNotInIndex)
        } else if same_id(id, &TLKE) {
            self.resource_number(&self.index.talkies, offset, ExtractError::TalkieNotInIndex)
        } else {
            c.count_block(id)
        }
    }

    /// Numbers a block with raw content. If it has no number nothing changes.
    fn number_flat(&self, c: &mut Container, id: &[u8; 4], offset: usize, content: &[u8]) -> (r:
        Result<i32, Stop>)
        requires
            offset >= 8,
        ensures
            match r {
                Ok(n) => walk::number_flat(self.game(), old(c)@, id@, offset as int, content@)
                    == Ok::<(i32, ContainerView), Stop>((n, final(c)@)),
                Err(stop) => walk::number_flat(self.game(), old(c)@, id@, offset as int, content@)
                    == Err::<(i32, ContainerView), Stop>(stop) && final(c)@ == old(c)@,
            },
    {
        if same_id(id, &SCRP) {
            self.resource_number(&self.index.scripts, offset, ExtractError::ScriptNotInIndex)
        } else if same_id(id, &LSC2) {
            if content.len() < 4 {
                Err(Stop::Error(ExtractError::LocalScriptHeader))
            } else {
                Ok(bytes::i32_at(content, 0))
            }
        } else if same_id(id, &CDHD) {
            if content.len() < 2 {
                Err(Stop::Error(ExtractError::ObjectHeader))
            } else {
                let object: u16 = bytes::u16_at(content, 0);
                c.object = object;
                Ok(object as i32)
            }
        } else {
            c.count_block(id)
        }
    }

    /// Puts out a script that is filed under `id` and `number`.
    pub fn output_script(
        &self,
        c: &Container,
        outs: &mut Vec<Output>,
        id: &[u8; 4],
        number: i32,
        scope: Scope,
        code: &[u8],
    )
        requires
            valid_utf8(id@),
        ensures
            output::views(final(outs)@) == output::views(old(outs)@).push(
                walk::script(self.game(), c@, id@, number, scope, code@),
            ),
    {
        match text::format_id_num(array_as_slice(id), number) {
            None => {
                assert(false);
            },
            Some(name) => {
                let out = Output::Script(
                    ScriptOutput {
                        stem: c.path_in(name.as_str()),
                        code: slice_to_vec(code),
                        scope,
                        number,
                        publish: self.publish,
                    },
                );
                proof {
                    lemma_views_push(outs@, out);
                }
                outs.push(out);
            },
        }
    }

    /// Puts out the verbs of an object.
    pub fn extract_verb(&self, c: &Container, outs: &mut Vec<Output>, content: &[u8]) -> (r: Result<
        (),
        Stop,
    >)
        ensures
            output::views(final(outs)@) == output::views(old(outs)@) + walk::verbs(
                self.game(),
                c@,
                content@,
                0,
            ).outs,
            r == walk::verbs(self.game(), c@, content@, 0).end,
    {
        let ghost all = walk::verbs(self.game(), c@, content@, 0);
        let ghost start = output::views(outs@);
        let mut pos: usize = 0;
        assert(output::views(outs@) + all.outs =~= start + all.outs);
        loop
            invariant
                pos <= content@.len(),
                output::views(outs@) + walk::verbs(self.game(), c@, content@, pos as int).outs
                    == start + all.outs,
                walk::verbs(self.game(), c@, content@, pos as int).end == all.end,
                all == walk::verbs(self.game(), c@, content@, 0),
                start == output::views(old(outs)@),
            decreases content.len() - pos,
        {
            let ghost rest = walk::verbs(self.game(), c@, content@, pos as int);
            let ghost before = output::views(outs@);
            let (number, offset) = match read_verb(content, pos) {
                None => {
                    assert(before + rest.outs =~= before);
                    return Ok(());
                },
                Some(entry) => entry,
            };
            // offsets are counted from the block's header
            if offset < 8 {
                assert(before + rest.outs =~= before);
                return Err(Stop::Fault(Fault::VerbRange));
            }
            let code_start: usize = offset as usize - 8;
            let code_end: usize = match read_verb(content, pos + 3) {
                Some((_, next)) => {
                    if next < 8 {
                        assert(before + rest.outs =~= before);
                        return Err(Stop::Fault(Fault::VerbRange));
                    }
                    next as usize - 8
                },
                None => content.len(),
            };
            if code_start > code_end || code_end > content.len() {
                assert(before + rest.outs =~= before);
                return Err(Stop::Fault(Fault::VerbRange));
            }
            proof {
                lemma_verb_is_text();
            }
            let code: &[u8] = slice_subrange(content, code_start, code_end);
            let scope: Scope = Scope::Verb(c.room, c.object);
            self.output_script(c, outs, &VERB, number as i32, scope, code);
            pos = pos + 3;
            assert(output::views(outs@) + walk::verbs(self.game(), c@, content@, pos as int).outs
                =~= before + rest.outs);
        }
    }

    /// Puts out the script that a block is.
    pub fn extract_script(
        &self,
        c: &Container,
        outs: &mut Vec<Output>,
        id: &[u8; 4],
        number: i32,
        content: &[u8],
    )
        requires
            valid_utf8(id@),
            id@ == SCRP@ || id@ == LSC2@ || id@ == ENCD@ || id@ == EXCD@,
            id@ == LSC2@ ==> content@.len() >= 4,
        ensures
            output::views(final(outs)@) == output::views(old(outs)@) + walk::scripts(
                self.game(),
                c@,
                id@,
                number,
                content@,
            ).outs,
    {
        let ghost before = output::views(outs@);
        if same_id(id, &SCRP) {
            self.output_script(c, outs, id, number, Scope::Global(number), content);
        } else if same_id(id, &LSC2) {
            // the code stands behind the number
            let code: &[u8] = slice_subrange(content, 4, content.len());
            self.output_script(c, outs, id, number, Scope::RoomLocal(c.room, number), code);
        } else if same_id(id, &ENCD) {
            self.output_script(c, outs, id, number, Scope::RoomEnter(c.room), content);
        } else {
            self.output_script(c, outs, id, number, Scope::RoomExit(c.room), content);
        }
        assert(output::views(outs@) =~= before + walk::scripts(
            self.game(),
            c@,
            id@,
            number,
            content@,
        ).outs);
    }

    /// Unpacks a block with raw content. One that is refused leaves the container as it was; any
    /// other leaves path and room, and changes the object only if it is an object header and the
    /// counts only if it is counted.
    pub fn extract_flat(
        &self,
        c: &mut Container,
        outs: &mut Vec<Output>,
        id: &[u8; 4],
        offset: usize,
        content: &[u8],
    ) -> (r: Result<(), Stop>)
        requires
            offset >= 8,
        ensures
            ({
                let run = walk::walk_flat(self.game(), old(c)@, id@, offset as int, content@);
                &&& output::views(final(outs)@) == output::views(old(outs)@) + run.outs
                &&& r == run.end
                &&& r is Ok ==> final(c)@ == run.container
                &&& r matches Err(Stop::Error(_)) ==> final(c)@ == old(c)@
            }),
            r is Ok ==> {
                &&& final(c)@.path == old(c)@.path
                &&& final(c)@.room == old(c)@.room
                &&& id@ != CDHD@ ==> final(c)@.object == old(c)@.object
                &&& final(c)@.counts == if id@ == SCRP@ || id@ == LSC2@ || id@ == CDHD@ {
                    old(c)@.counts
                } else {
                    old(c)@.counts.insert(
                        walk::id_key(id@),
                        (walk::counted(old(c)@, id@) + 1) as i32,
                    )
                }
            },
    {
        let ghost run = walk::walk_flat(self.game(), c@, id@, offset as int, content@);
        proof {
            if run.end is Ok {
                laws::law_raw_content_keeps_to_itself(
                    self.game(),
                    c@,
                    id@,
                    offset as int,
                    content@,
                );
            }
        }
        let ghost before = output::views(outs@);
        let number: i32 = match self.number_flat(c, id, offset, content) {
            Err(stop) => {
                assert(before + run.outs =~= before);
                return Err(stop);
            },
            Ok(n) => n,
        };
        let name: String = match text::format_id_num(array_as_slice(id), number) {
            None => {
                assert(before + run.outs =~= before);
                return Err(Stop::Fault(Fault::BlockIdNotText));
            },
            Some(name) => name,
        };
        c.list(name.as_str());
        let mut path: String = c.path_in(name.as_str());
        path.append(".bin");
        let file = Output::Block(OutputFile { path, data: slice_to_vec(content) });
        proof {
            lemma_views_push(outs@, file);
        }
        outs.push(file);
        let ghost rest = walk::scripts(self.game(), c@, id@, number, content@);
        assert(before + run.outs =~= before.push(file@) + rest.outs);
        if same_id(id, &SCRP) || same_id(id, &LSC2) || same_id(id, &ENCD) || same_id(id, &EXCD) {
            self.extract_script(c, outs, id, number, content);
            Ok(())
        } else if same_id(id, &VERB) {
            proof {
                lemma_verbs_are_not_refused(self.game(), c@, content@, 0);
            }
            self.extract_verb(c, outs, content)
        } else {
            assert(before.push(file@) + rest.outs =~= before.push(file@));
            Ok(())
        }
    }

    /// Unpacks the `size` bytes of blocks that stand at `offset`, and lists them. A block without a
    /// number leaves the container as it was.
    pub fn extract_recursive(
        &self,
        c: &mut Container,
        outs: &mut Vec<Output>,
        id: &[u8; 4],
        offset: usize,
        size: usize,
    ) -> (r: Result<(), Stop>)
        requires
            8 <= offset <= self.data@.len(),
        ensures
            ({
                let inner = layout::forest(self.data@, offset as int, offset + size);
                let block = Block::Nested {
                    id: id@,
                    offset: offset as int,
                    blocks: inner.blocks,
                    end: inner.end,
                };
                let run = walk::walk_block(self.game(), block, old(c)@);
                &&& output::views(final(outs)@) == output::views(old(outs)@) + run.outs
                &&& r == run.end
                &&& r is Ok ==> final(c)@ == run.container && inner.end is Ok
                &&& walk::number_nested(self.game(), old(c)@, id@, offset as int) is Err
                    ==> final(c)@ == old(c)@
            }),
        decreases self.data@.len() - offset, 1nat,
    {
        let ghost inner = layout::forest(self.data@, offset as int, offset + size);
        let ghost block = Block::Nested {
            id: id@,
            offset: offset as int,
            blocks: inner.blocks,
            end: inner.end,
        };
        let ghost run = walk::walk_block(self.game(), block, c@);
        let ghost before = output::views(outs@);
        let number: i32 = match self.number_nested(c, id, offset) {
            Err(stop) => {
                assert(before + run.outs =~= before);
                return Err(stop);
            },
            Ok(n) => n,
        };
        let name: String = match text::format_id_num(array_as_slice(id), number) {
            None => {
                assert(before + run.outs =~= before);
                return Err(Stop::Fault(Fault::BlockIdNotText));
            },
            Some(name) => name,
        };
        c.list(name.as_str());
        let mut own = Container {
            path: c.path_in(name.as_str()),
            room: c.room,
            object: c.object,
            counts: HashMap::new(),
            map: String::new(),
        };
        assert(own@ == walk::opened(c@, name@));
        let ghost start = own@;
        match self.scan_blocks(&mut own, outs, offset, size) {
            Err(stop) => return Err(stop),
            Ok(_) => {},
        }
        let file: Output = own.listing();
        proof {
            lemma_views_push(outs@, file);
            walk::law_paths_go_on(self.game(), inner.blocks, inner.end, start);
            walk::lemma_parent_goes_on(c@.path, name@, own@.path);
            walk::lemma_walk_ends(self.game(), inner.blocks, inner.end, start);
        }
        outs.push(file);
        c.path = text::parent_path(own.path.as_str());
        assert(output::views(outs@) =~= before + run.outs);
        Ok(())
    }

    /// Unpacks a block, whose content stands at `offset` and is said to have `size` bytes.
    pub fn handle_extract_block(
        &self,
        c: &mut Container,
        outs: &mut Vec<Output>,
        id: &[u8; 4],
        offset: usize,
        size: usize,
    ) -> (r: Result<(), Stop>)
        requires
            8 <= offset <= self.data@.len(),
        ensures
            match layout::nested_at(self.data@, offset as int, size as int) {
                Err(stop) => r == Err::<(), Stop>(stop) && output::views(final(outs)@)
                    == output::views(old(outs)@),
                Ok(nested) => {
                    let inner = layout::forest(self.data@, offset as int, offset + size);
                    let block = if nested {
                        Block::Nested {
                            id: id@,
                            offset: offset as int,
                            blocks: inner.blocks,
                            end: inner.end,
                        }
                    } else {
                        Block::Flat {
                            id: id@,
                            offset: offset as int,
                            content: layout::content_at(self.data@, offset as int, size as int),
                        }
                    };
                    let run = walk::walk_block(self.game(), block, old(c)@);
                    &&& output::views(final(outs)@) == output::views(old(outs)@) + run.outs
                    &&& r == run.end
                    &&& r is Ok ==> final(c)@ == run.container
                    &&& r is Ok && nested ==> inner.end is Ok
                },
            },
        decreases self.data@.len() - offset, 2nat,
    {
        match layout::guess_is_block_recursive(self.data, offset, size) {
            Err(stop) => Err(stop),
            Ok(true) => self.extract_recursive(c, outs, id, offset, size),
            Ok(false) => {
                let stop: usize = if size <= self.data.len() - offset {
                    offset + size
                } else {
                    self.data.len()
                };
                let content: &[u8] = slice_subrange(self.data, offset, stop);
                self.extract_flat(c, outs, id, offset, content)
            },
        }
    }

    /// Unpacks the `size` bytes of blocks that stand at `start`.
    pub fn scan_blocks(&self, c: &mut Container, outs: &mut Vec<Output>, start: usize, size: usize) -> (r:
        Result<(), Stop>)
        requires
            start <= self.data@.len(),
        ensures
            ({
                let f = layout::forest(self.data@, start as int, start + size);
                let run = walk::walk(self.game(), f.blocks, f.end, old(c)@);
                &&& output::views(final(outs)@) == output::views(old(outs)@) + run.outs
                &&& r == run.end
                &&& r is Ok ==> final(c)@ == run.container
            }),
        decreases self.data@.len() - start, 0nat,
    {
        let ghost d = self.data@;
        let ghost g = self.game();
        let ghost end = start + size;
        let ghost all = layout::forest(d, start as int, end);
        let ghost run = walk::walk(g, all.blocks, all.end, c@);
        let ghost first = output::views(outs@);
        let total: usize = self.data.len();
        let mut pos: usize = start;
        let mut left: usize = size;
        while left > 0
            invariant
                start <= pos <= total,
                total == d.len(),
                pos + left == end,
                end == start + size,
                d == self.data@,
                g == self.game(),
                all == layout::forest(d, start as int, end),
                run == walk::walk(g, all.blocks, all.end, old(c)@),
                first == output::views(old(outs)@),
                ({
                    let f = layout::forest(d, pos as int, end);
                    let rest = walk::walk(g, f.blocks, f.end, c@);
                    &&& output::views(outs@) + rest.outs == first + run.outs
                    &&& rest.end == run.end
                    &&& rest.end is Ok ==> rest.container == run.container
                }),
            decreases left,
        {
            let ghost f = layout::forest(d, pos as int, end);
            let ghost rest = walk::walk(g, f.blocks, f.end, c@);
            let ghost before = output::views(outs@);
            let ghost c0 = c@;
            let (id, len) = match layout::read_block_header(self.data, pos) {
                Err(stop) => {
                    assert(before + rest.outs =~= before);
                    return Err(stop);
                },
                Ok(head) => head,
            };
            let ghost inner = layout::forest(d, pos + 8, pos + len);
            let ghost nested = layout::nested_at(d, pos + 8, len - 8);
            let ghost block = if nested == Ok::<bool, Stop>(true) {
                Block::Nested { id: id@, offset: pos + 8, blocks: inner.blocks, end: inner.end }
            } else {
                Block::Flat {
                    id: id@,
                    offset: pos + 8,
                    content: layout::content_at(d, pos + 8, len - 8),
                }
            };
            let ghost tail = if nested == Ok::<bool, Stop>(true) && inner.end is Err {
                layout::no_blocks(inner.end)
            } else if pos + len <= d.len() {
                layout::forest(d, pos + len, end)
            } else {
                layout::no_blocks(Err(Stop::Error(ExtractError::WrongLength)))
            };
            proof {
                if inner.end is Ok {
                    layout::lemma_forest_inside(d, pos + 8, pos + len);
                }
                if nested is Ok {
                    assert(f == layout::in_front(block, tail));
                    walk::lemma_walk_in_front(g, block, tail, c0);
                } else {
                    assert(before + rest.outs =~= before);
                }
            }
            match self.handle_extract_block(c, outs, &id, pos + 8, len - 8) {
                Err(stop) => return Err(stop),
                Ok(_) => {},
            }
            let ghost tail_run = walk::walk(g, tail.blocks, tail.end, c@);
            assert(before + rest.outs =~= output::views(outs@) + tail_run.outs);
            if len > total - pos {
                assert(output::views(outs@) + tail_run.outs =~= output::views(outs@));
                return Err(Stop::Error(ExtractError::WrongLength));
            }
            pos = pos + len;
            if len > left {
                assert(output::views(outs@) + tail_run.outs =~= output::views(outs@));
                return Err(Stop::Error(ExtractError::MisalignedBlockEnd));
            }
            left = left - len;
        }
        assert(output::views(outs@) + Seq::<OutputView>::empty() =~= output::views(outs@));
        Ok(())
    }
}

/// Unpacks a file of a game, whatever the file holds: tells what is to be written, in order, and
/// how it comes to its end. What stands before an early end is still to be written.
pub fn try_extract(index: &Index, disk_number: u8, publish_scripts: bool, file: &[u8]) -> (r: (
    Vec<Output>,
    Result<(), Stop>,
))
    ensures
        (output::views(r.0@), r.1) == walk::extraction(
            (Game { index: index@, disk: disk_number, publish: publish_scripts }),
            file@,
        ),
{
    let data: Vec<u8> = bytes::unmask(file, bytes::NICE);
    let extractor = Extractor {
        index,
        disk_number,
        publish: publish_scripts,
        data: data.as_slice(),
    };
    let mut outs: Vec<Output> = Vec::new();
    let mut c = Container {
        path: ".".to_owned(),
        room: 0,
        object: 0,
        counts: HashMap::new(),
        map: String::new(),
    };
    assert(c@ == walk::root());
    let ghost run = walk::walk_file(extractor.game(), file@);
    let end: Result<(), Stop> = extractor.scan_blocks(&mut c, &mut outs, 0, data.len());
    assert(output::views(outs@) =~= run.outs);
    if end.is_ok() {
        let file: Output = c.listing();
        proof {
            lemma_views_push(outs@, file);
        }
        outs.push(file);
        assert(output::views(outs@) == run.outs.push(walk::listing(run.container)));
    }
    assert(extractor.game() == (Game {
        index: index@,
        disk: disk_number,
        publish: publish_scripts,
    }));
    (outs, end)
}

/// Unpacks a file of a game: tells what is to be written, in order, and how it comes to its end.
/// What stands before an early end is still to be written.
///
/// Files with a fault are left out; [`try_extract`] tells them apart.
pub fn extract(index: &Index, disk_number: u8, publish_scripts: bool, file: &[u8]) -> (r: (
    Vec<Output>,
    Result<(), ExtractError>,
))
    requires
        !error::faulty(
            walk::extraction(
                (Game { index: index@, disk: disk_number, publish: publish_scripts }),
                file@,
            ).1,
        ),
    ensures
        ({
            let (outs, end) = walk::extraction(
                (Game { index: index@, disk: disk_number, publish: publish_scripts }),
                file@,
            );
            &&& output::views(r.0@) == outs
            &&& match r.1 {
                Ok(_) => end is Ok,
                Err(e) => end == Err::<(), Stop>(Stop::Error(e)),
            }
        }),
{
    let (outs, end) = try_extract(index, disk_number, publish_scripts, file);
    let end: Result<(), ExtractError> = match end {
        Ok(_) => Ok(()),
        Err(Stop::Error(e)) => Err(e),
        Err(Stop::Fault(_)) => {
            assert(false);
            Err(ExtractError::WrongLength)
        },
    };
    (outs, end)
}

/// Verbs that come to an early end do so by a fault.
proof fn lemma_verbs_are_not_refused(g: Game, c: ContainerView, content: Seq<u8>, pos: int)
    ensures
        !(walk::verbs(g, c, content, pos).end matches Err(Stop::Error(_))),
    decreases content.len() - pos,
{
    if walk::verb_at(content, pos) is Some {
        lemma_verbs_are_not_refused(g, c, content, pos + 3);
    }
}

/// The name of verb blocks is text.
proof fn lemma_verb_is_text()
    ensures
        valid_utf8(VERB@),
{
    reveal_strlit("VERB");
    let name = "VERB"@;
    is_ascii_chars_encode_utf8(name);
    assert(encode_utf8(name) =~= VERB@);
    encode_utf8_valid_utf8(name);
}

/// Nothing of a container, nor of what stays the same, is left out of what is known of it.
pub proof fn law_containers_are_seen_whole(c: Container, e: Extractor<'_>)
    ensures
        c@ == (ContainerView {
            path: c.path@,
            room: c.room,
            object: c.object,
            counts: c.counts@,
            map: c.map@,
        }),
        e.game() == (Game { index: e.index@, disk: e.disk_number, publish: e.publish }),
{
}

} // verus!
