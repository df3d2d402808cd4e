use edcore::buffer::{BufferPosition, BufferRange};
use edcore::diagnostics::DiagnosticCollection;

fn range(line: u32, col: u32) -> BufferRange {
    BufferRange {
        from: BufferPosition::line_col(line, col),
        to: BufferPosition::line_col(line, col + 1),
    }
}

#[test]
fn publish_fills_sorts_and_reuses_an_entry() {
    let mut collection = DiagnosticCollection::new();

    let entry = collection.path_diagnostics_mut(b"src/main.rs", Some(3));
    collection.add(entry, String::from("late"), range(5, 0));
    collection.add(entry, String::from("early"), range(1, 2));
    collection.add(entry, String::from("middle"), range(2, 0));
    collection.sort(entry);
    {
        let entries = collection.entries();
        assert_eq!(b"src/main.rs".to_vec(), entries[entry].path);
        assert_eq!(Some(3), entries[entry].buffer_handle);
        assert_eq!(3, entries[entry].len);
        let messages: Vec<&str> = entries[entry].diagnostics[..entries[entry].len]
            .iter()
            .map(|d| d.message.as_str())
            .collect();
        assert_eq!(vec!["early", "middle", "late"], messages);
    }

    // The next publish for the same path reuses the entry from the front.
    let again = collection.path_diagnostics_mut(b"src/main.rs", None);
    assert_eq!(entry, again);
    collection.add(again, String::from("only"), range(0, 0));
    {
        let entries = collection.entries();
        assert_eq!(1, entries.len());
        assert_eq!(1, entries[again].len);
        assert_eq!("only", entries[again].diagnostics[0].message);
        // The reused entry kept its binding and its capacity.
        assert_eq!(Some(3), entries[again].buffer_handle);
        assert_eq!(3, entries[again].diagnostics.len());
    }
}

#[test]
fn sort_keeps_equal_starts_in_order() {
    let mut collection = DiagnosticCollection::new();
    let entry = collection.path_diagnostics_mut(b"lib.rs", None);
    collection.add(entry, String::from("b"), range(4, 0));
    collection.add(entry, String::from("first"), range(2, 1));
    collection.add(entry, String::from("second"), range(2, 1));
    collection.add(entry, String::from("a"), range(0, 0));
    collection.sort(entry);
    let entries = collection.entries();
    let messages: Vec<&str> = entries[entry].diagnostics.iter().map(|d| d.message.as_str()).collect();
    assert_eq!(vec!["a", "first", "second", "b"], messages);
}

#[test]
fn empty_publishes_are_cleared() {
    let mut collection = DiagnosticCollection::new();
    let a = collection.path_diagnostics_mut(b"a.rs", None);
    collection.add(a, String::from("kept"), range(0, 0));
    collection.path_diagnostics_mut(b"b.rs", None);
    collection.path_diagnostics_mut(b"c.rs", None);
    collection.clear_empty();
    let entries = collection.entries();
    assert_eq!(1, entries.len());
    assert_eq!(b"a.rs".to_vec(), entries[0].path);
}

#[test]
fn buffers_bind_and_unbind() {
    let mut collection = DiagnosticCollection::new();
    let entry = collection.path_diagnostics_mut(b"doc.txt", None);
    collection.add(entry, String::from("typo"), range(0, 3));
    assert_eq!(None, collection.buffer_diagnostics(7));

    // Opening the file binds its entry to the buffer.
    collection.on_load_buffer(b"doc.txt", 7);
    assert_eq!(Some(entry), collection.buffer_diagnostics(7));

    // Saving under the same path keeps the binding; closing drops it.
    collection.on_save_buffer(b"doc.txt", 7);
    assert_eq!(Some(entry), collection.buffer_diagnostics(7));
    collection.on_close_buffer(7);
    assert_eq!(None, collection.buffer_diagnostics(7));

    // Saving under another path unbinds the stale entry.
    collection.on_load_buffer(b"doc.txt", 7);
    collection.on_save_buffer(b"renamed.txt", 7);
    assert_eq!(None, collection.buffer_diagnostics(7));
}
