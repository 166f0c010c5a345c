//! Handing out the items of successive pages one at a time.
//!
//! [`PageBuffer`] decides, without fetching anything itself, whether the next
//! item is at hand, whether the stream is over, or whether another page is
//! needed. [`PageCursor`] runs it over a [`PageSource`].

use std::collections::VecDeque;
use vstd::prelude::*;

use crate::error::StorageError;
use crate::key_listing::capped;
use crate::models::KeyValueStoreRecordMetadata;
use crate::text::opt_text;

verus! {

/// A source of successive pages.
pub trait PageSource: Sized {
    /// What the pages hold.
    type Item: Clone;

    /// Whether asking the source `before` for a page, with `limit` items still
    /// wanted, may give `r` and leave the source as `after`. A source that says
    /// nothing about itself may give anything.
    open spec fn fetches(
        before: Self,
        limit: Option<usize>,
        r: Result<(Vec<Self::Item>, bool), StorageError>,
        after: Self,
    ) -> bool {
        true
    }

    /// Fetches the next page and moves the source behind it. `remaining_limit`
    /// is how many items are still wanted; `None` stands for all. The flag says
    /// whether more items follow the page.
    fn fetch_page(&mut self, remaining_limit: Option<usize>) -> (r: Result<
        (Vec<Self::Item>, bool),
        StorageError,
    >)
        ensures
            Self::fetches(*old(self), remaining_limit, r, *final(self)),
    ;
}

/// What a cursor knows: the items it holds but has not handed out, how many more
/// are wanted, and whether the last page was fetched.
#[verifier::ext_equal]
pub ghost struct CursorState<T> {
    pub pending: Seq<T>,
    pub remaining: Option<usize>,
    pub done: bool,
}

/// What a cursor does next.
pub enum CursorStep<T> {
    /// Hands out an item.
    Yield(T),
    /// Reports the end of the stream.
    End,
    /// Needs a page of at most that many items.
    Fetch(Option<usize>),
}

/// How many items are wanted after `n` more were fetched.
pub open spec fn less_fetched(remaining: Option<usize>, n: nat) -> Option<usize> {
    match remaining {
        Some(k) => Some(
            if n <= k {
                (k - n) as usize
            } else {
                0
            },
        ),
        None => None,
    }
}

/// The state of a cursor before its first step.
pub open spec fn fresh_cursor<T>(limit: Option<usize>) -> CursorState<T> {
    CursorState { pending: Seq::empty(), remaining: limit, done: false }
}

/// The state of a cursor after it took in a page and handed out its first item,
/// where it has one. Of a page that is longer than what is wanted, the rest is
/// cut off, and the stream ends with it.
pub open spec fn after_page<T>(st: CursorState<T>, items: Seq<T>, has_more: bool) -> CursorState<
    T,
> {
    let page = capped(items, st.remaining);
    if page.len() == 0 {
        CursorState { done: true, ..st }
    } else {
        CursorState {
            pending: page.skip(1),
            remaining: less_fetched(st.remaining, page.len()),
            done: !has_more || page.len() < items.len(),
        }
    }
}

/// What a cursor hands out right after it took in a page: its first item, where
/// there is one that is wanted.
pub open spec fn first_of_page<T>(st: CursorState<T>, items: Seq<T>) -> Option<T> {
    let page = capped(items, st.remaining);
    if page.len() == 0 {
        None
    } else {
        Some(page[0])
    }
}

/// The buffer between pages and single items.
pub struct PageBuffer<T> {
    remaining_limit: Option<usize>,
    buffer: VecDeque<T>,
    done: bool,
}

impl<T> View for PageBuffer<T> {
    type V = CursorState<T>;

    closed spec fn view(&self) -> CursorState<T> {
        CursorState { pending: self.buffer@, remaining: self.remaining_limit, done: self.done }
    }
}

impl<T> PageBuffer<T> {
    /// A buffer that has taken in no page yet and wants at most `limit` items.
    pub fn new(limit: Option<usize>) -> (r: Self)
        ensures
            r@ == fresh_cursor::<T>(limit),
    {
        PageBuffer { remaining_limit: limit, buffer: VecDeque::new(), done: false }
    }

    /// Takes the next step: items at hand come first, and no page is asked for
    /// once the last one was taken in.
    pub fn poll(&mut self) -> (r: CursorStep<T>)
        ensures
            if old(self)@.pending.len() > 0 {
                &&& r == CursorStep::Yield(old(self)@.pending[0])
                &&& final(self)@ == (CursorState {
                    pending: old(self)@.pending.skip(1),
                    ..old(self)@
                })
            } else {
                &&& final(self)@ == old(self)@
                &&& r == if old(self)@.done {
                    CursorStep::<T>::End
                } else {
                    CursorStep::Fetch(old(self)@.remaining)
                }
            },
    {
        match self.buffer.pop_front() {
            Some(item) => {
                assert(self.buffer@ == old(self).buffer@.skip(1));
                CursorStep::Yield(item)
            },
            None => {
                if self.done {
                    CursorStep::End
                } else {
                    CursorStep::Fetch(self.remaining_limit)
                }
            },
        }
    }

    /// Takes in a page that was asked for, and hands out its first item. An
    /// empty page ends the stream, whatever `has_more` says; so does one that
    /// holds more than is wanted, of which the rest is dropped.
    pub fn accept_page(&mut self, items: Vec<T>, has_more: bool) -> (r: Option<T>)
        requires
            old(self)@.pending.len() == 0,
            !old(self)@.done,
        ensures
            final(self)@ == after_page(old(self)@, items@, has_more),
            r == first_of_page(old(self)@, items@),
    {
        let ghost page = capped(items@, self.remaining_limit);
        let mut rest = items;
        let mut cut = false;
        if let Some(rem) = self.remaining_limit {
            if rest.len() > rem {
                rest.truncate(rem);
                cut = true;
            }
        }
        assert(rest@ == page);
        if rest.len() == 0 {
            self.done = true;
            return None;
        }
        if let Some(rem) = self.remaining_limit {
            self.remaining_limit = Some(rem - rest.len());
        }
        if !has_more || cut {
            self.done = true;
        }
        let mut buffer: VecDeque<T> = VecDeque::new();
        while rest.len() > 0
            invariant
                rest@ + buffer@ == page,
            decreases rest.len(),
        {
            if let Some(item) = rest.pop() {
                buffer.push_front(item);
            }
        }
        assert(buffer@ == page);
        let first = buffer.pop_front();
        assert(buffer@ == page.skip(1));
        self.buffer = buffer;
        first
    }
}

/// A lazy cursor over the pages of a source.
pub struct PageCursor<S: PageSource> {
    source: S,
    pages: PageBuffer<S::Item>,
}

impl<S: PageSource> PageCursor<S> {
    /// The source that pages are fetched from.
    pub closed spec fn source(&self) -> S {
        self.source
    }

    /// What the cursor knows.
    pub closed spec fn state(&self) -> CursorState<S::Item> {
        self.pages@
    }

    /// A cursor over `source` that hands out at most `limit` items in all.
    pub fn new(source: S, limit: Option<usize>) -> (r: Self)
        ensures
            r.source() == source,
            r.state() == fresh_cursor::<S::Item>(limit),
    {
        PageCursor { source, pages: PageBuffer::new(limit) }
    }

    /// The next item; `None` once the source is exhausted or the limit is reached,
    /// and ever after. Items at hand come first; otherwise the source is asked
    /// once, for what is left of the limit. An error of the source is handed on
    /// and leaves what the cursor knows unchanged.
    pub fn next(&mut self) -> (r: Result<Option<S::Item>, StorageError>)
        ensures
            ({
                let before = old(self).state();
                let after = final(self).state();
                if before.pending.len() > 0 {
                    &&& final(self).source() == old(self).source()
                    &&& r == Ok::<Option<S::Item>, StorageError>(Some(before.pending[0]))
                    &&& after == (CursorState { pending: before.pending.skip(1), ..before })
                } else if before.done {
                    &&& final(self).source() == old(self).source()
                    &&& r == Ok::<Option<S::Item>, StorageError>(None)
                    &&& after == before
                } else {
                    exists|page: Result<(Vec<S::Item>, bool), StorageError>|
                        {
                            &&& #[trigger] S::fetches(
                                old(self).source(),
                                before.remaining,
                                page,
                                final(self).source(),
                            )
                            &&& match page {
                                Err(e) => {
                                    &&& r == Err::<Option<S::Item>, StorageError>(e)
                                    &&& after == before
                                },
                                Ok((items, has_more)) => {
                                    &&& r == Ok::<Option<S::Item>, StorageError>(
                                        first_of_page(before, items@),
                                    )
                                    &&& after == after_page(before, items@, has_more)
                                },
                            }
                        }
                }
            }),
    {
        match self.pages.poll() {
            CursorStep::Yield(item) => Ok(Some(item)),
            CursorStep::End => Ok(None),
            CursorStep::Fetch(remaining) => {
                let page = self.source.fetch_page(remaining);
                let ghost fetched = page;
                let r = match page {
                    Err(e) => Err(e),
                    Ok((items, has_more)) => Ok(self.pages.accept_page(items, has_more)),
                };
                assert(S::fetches(old(self).source(), remaining, fetched, self.source()));
                r
            },
        }
    }
}

/// Where a walk through the items of a dataset stands.
pub struct DatasetItemSource {
    pub offset: usize,
    pub page_size: usize,
    pub desc: bool,
    pub skip_empty: bool,
}

impl DatasetItemSource {
    /// A walk that starts at `offset`.
    pub fn new(offset: usize, page_size: usize, desc: bool, skip_empty: bool) -> (r: Self)
        ensures
            r == (DatasetItemSource { offset, page_size, desc, skip_empty }),
    {
        DatasetItemSource { offset, page_size, desc, skip_empty }
    }

    /// Moves behind a page of `fetched` items.
    pub fn advance(&mut self, fetched: usize)
        requires
            old(self).offset + fetched <= usize::MAX,
        ensures
            *final(self) == (DatasetItemSource {
                offset: (old(self).offset + fetched) as usize,
                ..*old(self)
            }),
    {
        self.offset = self.offset + fetched;
    }
}

/// Where a walk through the keys of a store stands.
pub struct KvsKeySource {
    pub exclusive_start_key: Option<String>,
    pub page_size: usize,
    pub prefix: Option<String>,
}

impl KvsKeySource {
    /// A walk that starts behind the given key.
    pub fn new(
        exclusive_start_key: Option<String>,
        page_size: usize,
        prefix: Option<String>,
    ) -> (r: Self)
        ensures
            r == (KvsKeySource { exclusive_start_key, page_size, prefix }),
    {
        KvsKeySource { exclusive_start_key, page_size, prefix }
    }

    /// Moves behind the last key of a page; an empty page moves nothing.
    pub fn advance(&mut self, page: &[KeyValueStoreRecordMetadata])
        ensures
            final(self).page_size == old(self).page_size,
            final(self).prefix == old(self).prefix,
            opt_text(final(self).exclusive_start_key) == if page@.len() > 0 {
                Some(page@.last().key@)
            } else {
                opt_text(old(self).exclusive_start_key)
            },
    {
        let n: usize = page.len();
        if n > 0 {
            self.exclusive_start_key = Some(page[n - 1].key.clone());
        }
    }
}

/// A page as a source hands it over: its items, and whether more follow.
pub ghost struct Page<T> {
    pub items: Seq<T>,
    pub has_more: bool,
}

/// Whether a page is the last one that a cursor takes in.
pub open spec fn ends_stream<T>(page: Page<T>) -> bool {
    page.items.len() == 0 || !page.has_more
}

/// The items of all pages up to and with the one that ends the stream.
pub open spec fn stream_items<T>(pages: Seq<Page<T>>) -> Seq<T>
    decreases pages.len(),
{
    if pages.len() == 0 {
        Seq::empty()
    } else if ends_stream(pages[0]) {
        pages[0].items
    } else {
        pages[0].items + stream_items(pages.skip(1))
    }
}

/// One call for the next item, on a source that is about to hand over `pages`:
/// what comes out, the state after it, and the pages that are left.
pub open spec fn next_item<T>(st: CursorState<T>, pages: Seq<Page<T>>) -> (
    Option<T>,
    CursorState<T>,
    Seq<Page<T>>,
) {
    if st.pending.len() > 0 {
        (Some(st.pending[0]), CursorState { pending: st.pending.skip(1), ..st }, pages)
    } else if st.done || pages.len() == 0 {
        (None, st, pages)
    } else {
        let page = pages[0];
        (
            first_of_page(st, page.items),
            after_page(st, page.items, page.has_more),
            pages.skip(1),
        )
    }
}

/// What the call number `n` for the next item gives.
pub open spec fn nth_item<T>(st: CursorState<T>, pages: Seq<Page<T>>, n: nat) -> Option<T>
    decreases n,
{
    let (out, st2, rest) = next_item(st, pages);
    if n == 0 {
        out
    } else {
        nth_item(st2, rest, (n - 1) as nat)
    }
}

/// What is still to come out of a cursor.
spec fn outstanding<T>(st: CursorState<T>, pages: Seq<Page<T>>) -> Seq<T> {
    if st.done {
        st.pending
    } else {
        st.pending + capped(stream_items(pages), st.remaining)
    }
}

/// A cursor hands out the items of all pages, in order and each once, up to its
/// limit, and then nothing for ever: the call number `n` gives the item number
/// `n` of the stream where there is one within the limit, and none otherwise.
pub proof fn law_cursor_yields_the_stream<T>(limit: Option<usize>, pages: Seq<Page<T>>, n: nat)
    ensures
        nth_item(fresh_cursor::<T>(limit), pages, n) == if n < stream_items(pages).len() && (
        limit matches Some(most) ==> n < most) {
            Some(stream_items(pages)[n as int])
        } else {
            None
        },
{
    let all = capped(stream_items(pages), limit);
    assert(Seq::<T>::empty() + all == all);
    lemma_nth_item(fresh_cursor::<T>(limit), pages, n);
}

proof fn lemma_capped_sum<T>(a: Seq<T>, b: Seq<T>, limit: Option<usize>)
    ensures
        capped(a + b, limit) == if capped(a, limit).len() < a.len() {
            capped(a, limit)
        } else {
            a + capped(b, less_fetched(limit, a.len()))
        },
{
    if let Some(n) = limit {
        if a.len() > n {
            assert((a + b).take(n as int) == a.take(n as int));
        } else if (a + b).len() > n {
            assert((a + b).take(n as int) == a + b.take(n - a.len()));
        }
    }
}

proof fn lemma_nth_item<T>(st: CursorState<T>, pages: Seq<Page<T>>, n: nat)
    ensures
        nth_item(st, pages, n) == if n < outstanding(st, pages).len() {
            Some(outstanding(st, pages)[n as int])
        } else {
            None
        },
    decreases n,
{
    let (out, st2, rest) = next_item(st, pages);
    let all = outstanding(st, pages);
    if st.pending.len() == 0 && !st.done && pages.len() > 0 {
        let page = pages[0];
        let page_items = capped(page.items, st.remaining);
        if !ends_stream(page) {
            lemma_capped_sum(page.items, stream_items(rest), st.remaining);
        }
        assert(all == if st2.done {
            page_items
        } else {
            page_items + capped(stream_items(rest), st2.remaining)
        });
        if page_items.len() > 0 {
            assert((page_items + capped(stream_items(rest), st2.remaining)).skip(1)
                == page_items.skip(1) + capped(stream_items(rest), st2.remaining));
        }
    }
    if all.len() > 0 {
        assert(out == Some(all[0]));
        assert(outstanding(st2, rest) == all.skip(1));
    } else {
        assert(outstanding(st2, rest).len() == 0);
    }
    if n > 0 {
        lemma_nth_item(st2, rest, (n - 1) as nat);
    }
}

} // verus!
