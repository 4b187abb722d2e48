//! The handle by which a plain-text container is used.

use crate::id::{ContainerID, ID};
use crate::log_store::LogStore;
use crate::op::{InnerContent, InnerListOp, SliceRange};
use crate::string_pool::all_alive;
use crate::text_container::{all_known, TextContainer};
use crate::text_rope::slice_units;
use crate::value::LoroValue;
use vstd::prelude::*;

verus! {

pub struct Text {
    instance: TextContainer,
}

impl Text {
    /// The container behind the handle.
    pub closed spec fn container(&self) -> TextContainer {
        self.instance
    }

    /// A handle on the container.
    pub fn from(text: TextContainer) -> (handle: Text)
        ensures
            handle.container() == text,
    {
        Text { instance: text }
    }

    /// The container, given back.
    pub fn into_container(self) -> (text: TextContainer)
        ensures
            text == self.container(),
    {
        self.instance
    }

    /// The identity of the container.
    pub fn id(&self) -> (id: ContainerID)
        ensures
            id == self.container().container_id(),
    {
        self.instance.id().duplicate()
    }

    /// Inserts `text` before character `pos`; see `TextContainer::insert`.
    pub fn insert(&mut self, store: &mut LogStore, pos: usize, text: &str) -> (r: Option<ID>)
        requires
            old(self).container().wf(),
            old(store).wf(),
            text@.len() > 0 ==> old(self).container().can_insert(old(store), pos, text@),
        ensures
            final(self).container().wf(),
            final(store).wf(),
            final(self).container().container_id() == old(self).container().container_id(),
            final(self).container().tracker() == old(self).container().tracker(),
            final(self).container().pool_alive() == old(self).container().pool_alive() + all_alive(text@.len()),
            all_known(old(self).container().units()) ==> all_known(final(self).container().units()),
            text@.len() == 0 ==> r is None && final(self).container().units() == old(self).container().units()
                && final(self).container().pool_text() == old(self).container().pool_text() && final(self).container().head() == old(self).container().head() && *final(store) == *old(store),
            text@.len() > 0 ==> {
                let slice = SliceRange {
                    start: old(self).container().pool_text().len() as u32,
                    end: (old(self).container().pool_text().len() + text@.len()) as u32,
                };
                &&& r == Some(old(store).next_id())
                &&& final(self).container().pool_text() == old(self).container().pool_text() + text@
                &&& final(self).container().units() == old(self).container().units().subrange(0, pos as int) + slice_units(
                    slice,
                ) + old(self).container().units().subrange(pos as int, old(self).container().units().len() as int)
                &&& final(self).container().value() == old(self).container().value().subrange(0, pos as int) + text@
                    + old(self).container().value().subrange(pos as int, old(self).container().value().len() as int)
                &&& final(self).container().head() == seq![
                    (old(store).client(), (old(store).next_counter() + text@.len() - 1) as i32),
                ]
                &&& final(store).client() == old(store).client()
                &&& final(store).next_counter() == old(store).next_counter() + text@.len()
                &&& final(store).log().len() == old(store).log().len() + 1
                &&& final(store).log().subrange(0, old(store).log().len() as int) == old(store).log()
                &&& final(store).log().last().counter == old(store).next_counter()
                &&& final(store).log().last().content == InnerContent::List(
                    InnerListOp::Insert { slice, pos },
                )
                &&& final(store).arena().registers(
                    &old(store).arena(),
                    old(self).container().container_id(),
                    final(store).log().last().container,
                )
            },
    {
        self.instance.insert(store, pos, text)
    }

    /// Deletes `len` characters from character `pos` on; see
    /// `TextContainer::delete`.
    pub fn delete(&mut self, store: &mut LogStore, pos: usize, len: usize) -> (r: Option<ID>)
        requires
            old(self).container().wf(),
            old(store).wf(),
            len > 0 ==> old(self).container().can_delete(old(store), pos, len),
        ensures
            final(self).container().wf(),
            final(store).wf(),
            final(self).container().container_id() == old(self).container().container_id(),
            final(self).container().tracker() == old(self).container().tracker(),
            final(self).container().pool_text() == old(self).container().pool_text(),
            final(self).container().pool_alive() == old(self).container().pool_alive(),
            all_known(old(self).container().units()) ==> all_known(final(self).container().units()),
            len == 0 ==> r is None && final(self).container().units() == old(self).container().units() && final(self).container().head() == old(self).container().head() && *final(store) == *old(store),
            len > 0 ==> {
                &&& r == Some(old(store).next_id())
                &&& final(self).container().units() == old(self).container().units().subrange(0, pos as int) + old(self).container().units().subrange(pos + len, old(self).container().units().len() as int)
                &&& final(self).container().value() == old(self).container().value().subrange(0, pos as int) + old(self).container().value().subrange(pos + len, old(self).container().value().len() as int)
                &&& final(self).container().head() == seq![
                    (old(store).client(), (old(store).next_counter() + len - 1) as i32),
                ]
                &&& final(store).client() == old(store).client()
                &&& final(store).next_counter() == old(store).next_counter() + len
                &&& final(store).log().len() == old(store).log().len() + 1
                &&& final(store).log().subrange(0, old(store).log().len() as int) == old(store).log()
                &&& final(store).log().last().counter == old(store).next_counter()
                &&& final(store).log().last().content == InnerContent::List(
                    InnerListOp::Delete(
                        crate::op::DeleteSpan { pos: pos as isize, len: len as isize },
                    ),
                )
                &&& final(store).arena().registers(
                    &old(store).arena(),
                    old(self).container().container_id(),
                    final(store).log().last().container,
                )
            },
    {
        self.instance.delete(store, pos, len)
    }

    /// The number of characters of the text.
    pub fn text_len(&self) -> (n: usize)
        requires
            self.container().wf(),
        ensures
            n == self.container().value().len(),
    {
        self.instance.text_len()
    }

    /// The text as a value. The content of every place must be known.
    pub fn get_value(&self) -> (v: LoroValue)
        requires
            self.container().wf(),
            all_known(self.container().units()),
        ensures
            v matches LoroValue::Str(s) && s@ == self.container().value(),
    {
        self.instance.get_value()
    }
}

} // verus!
