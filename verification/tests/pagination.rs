use crawlee_storage::error::StorageError;
use crawlee_storage::models::KeyValueStoreRecordMetadata;
use crawlee_storage::pagination::{
    CursorStep, DatasetItemSource, KvsKeySource, PageBuffer, PageCursor, PageSource,
};

/// A source over a fixed list of integers, cut into pages of a fixed size.
struct VecSource {
    data: Vec<i32>,
    pos: usize,
    page_size: usize,
}

impl PageSource for VecSource {
    type Item = i32;

    fn fetch_page(&mut self, remaining_limit: Option<usize>) -> Result<(Vec<i32>, bool), StorageError> {
        let want = match remaining_limit {
            Some(rem) => self.page_size.min(rem),
            None => self.page_size,
        };
        let end = (self.pos + want).min(self.data.len());
        let items = self.data[self.pos..end].to_vec();
        self.pos = end;
        let has_more = self.pos < self.data.len();
        Ok((items, has_more))
    }
}

fn drain<S: PageSource>(mut cursor: PageCursor<S>) -> Vec<S::Item> {
    let mut out = Vec::new();
    while let Some(item) = cursor.next().unwrap() {
        out.push(item);
    }
    out
}

fn source(n: i32, page_size: usize) -> VecSource {
    VecSource { data: (0..n).collect(), pos: 0, page_size }
}

#[test]
fn yields_every_item_in_order_across_pages() {
    let cursor = PageCursor::new(source(10, 3), None);
    assert_eq!(drain(cursor), (0..10).collect::<Vec<_>>());
}

#[test]
fn respects_overall_limit() {
    let cursor = PageCursor::new(source(10, 3), Some(4));
    assert_eq!(drain(cursor), vec![0, 1, 2, 3]);
}

#[test]
fn empty_source_yields_nothing() {
    let mut cursor = PageCursor::new(source(0, 3), None);
    assert!(cursor.next().unwrap().is_none());
    assert!(cursor.next().unwrap().is_none());
}

#[test]
fn exact_multiple_of_page_size_terminates() {
    let cursor = PageCursor::new(source(9, 3), None);
    assert_eq!(drain(cursor), (0..9).collect::<Vec<_>>());
}

struct Failing {
    failures: usize,
}

impl PageSource for Failing {
    type Item = u8;

    fn fetch_page(&mut self, remaining_limit: Option<usize>) -> Result<(Vec<u8>, bool), StorageError> {
        assert_eq!(remaining_limit, Some(2));
        if self.failures > 0 {
            self.failures -= 1;
            return Err(StorageError::Io("disk".to_string()));
        }
        Ok((vec![7, 8], false))
    }
}

#[test]
fn an_error_can_be_retried() {
    let mut cursor = PageCursor::new(Failing { failures: 1 }, Some(2));
    assert!(matches!(cursor.next(), Err(StorageError::Io(_))));
    assert_eq!(cursor.next().unwrap(), Some(7));
    assert_eq!(cursor.next().unwrap(), Some(8));
    assert_eq!(cursor.next().unwrap(), None);
}

#[test]
fn buffer_asks_for_what_is_left() {
    let mut buffer: PageBuffer<u8> = PageBuffer::new(Some(5));
    assert!(matches!(buffer.poll(), CursorStep::Fetch(Some(5))));
    assert_eq!(buffer.accept_page(vec![1, 2], true), Some(1));
    assert!(matches!(buffer.poll(), CursorStep::Yield(2)));
    assert!(matches!(buffer.poll(), CursorStep::Fetch(Some(3))));
    assert_eq!(buffer.accept_page(vec![3, 4, 5, 6], true), Some(3));
    assert!(matches!(buffer.poll(), CursorStep::Yield(4)));
    assert!(matches!(buffer.poll(), CursorStep::Yield(5)));
    assert!(matches!(buffer.poll(), CursorStep::End));
}

/// A source that hands over the same page whatever it is asked for.
struct Stubborn;

impl PageSource for Stubborn {
    type Item = u8;

    fn fetch_page(&mut self, _remaining_limit: Option<usize>) -> Result<(Vec<u8>, bool), StorageError> {
        Ok((vec![1, 2, 3], false))
    }
}

#[test]
fn no_more_than_the_limit_comes_out() {
    let mut cursor = PageCursor::new(Stubborn, Some(2));
    assert_eq!(cursor.next().unwrap(), Some(1));
    assert_eq!(cursor.next().unwrap(), Some(2));
    assert_eq!(cursor.next().unwrap(), None);
    assert_eq!(cursor.next().unwrap(), None);
    let mut none = PageCursor::new(Stubborn, Some(0));
    assert_eq!(none.next().unwrap(), None);
    assert_eq!(drain(PageCursor::new(Stubborn, None)), vec![1, 2, 3]);
}

#[test]
fn an_empty_page_ends_the_stream_whatever_it_promises() {
    let mut buffer: PageBuffer<u8> = PageBuffer::new(None);
    assert_eq!(buffer.accept_page(Vec::new(), true), None);
    assert!(matches!(buffer.poll(), CursorStep::End));
}

#[test]
fn sources_move_behind_what_was_fetched() {
    let mut items = DatasetItemSource::new(4, 10, true, false);
    items.advance(3);
    assert_eq!((items.offset, items.page_size, items.desc), (7, 10, true));
    let mut keys = KvsKeySource::new(None, 10, Some("p".to_string()));
    keys.advance(&[]);
    assert_eq!(keys.exclusive_start_key, None);
    let record = |key: &str| KeyValueStoreRecordMetadata {
        key: key.to_string(),
        content_type: String::new(),
        size: None,
        filename: None,
    };
    keys.advance(&[record("pa"), record("pb")]);
    assert_eq!(keys.exclusive_start_key.as_deref(), Some("pb"));
    assert_eq!(keys.prefix.as_deref(), Some("p"));
}
