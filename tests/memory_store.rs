use string_io_and_mock::error::TextError;
use string_io_and_mock::memory::MockTextHandler;

const BALLAD: &str = "\
As I came down by Fiddichside on a May morning
I spied Willy MacIntosh an hour before the dawning.
Turn again, turn again, turn again I bid thee,
If ye'll burn Auchindoon, Huntley he will heed thee.

- Heed me or hang me, that will never fear me.
I'll burn Auchindoon ere the life will leave me.

As I came down by Fiddichside on a May morning
Auchindoon was in a blaze an hour before the dawning.
Crawing, crawing, for all your crews are crawing,
you taint your crops and burnt your wings
an hour before the dawning.

As I came down by Fiddichside on a May morning
I spied Willy MacIntosh an hour before the dawning.
Hanging, hanging, ay the boy was hanging,
but the smoke of Auchindoon
through the air was rising.
";

#[test]
fn mock_read_write() {
    let txt = String::from(BALLAD);

    let key = "Auchindoon";
    let mut mock = MockTextHandler::new();
    mock.write_text(key, txt.clone()).unwrap();
    let read_back = mock.read_text(key).unwrap();

    assert_eq!(txt, read_back);
}

#[test]
fn mock_overwrite() {
    let txt1 = String::from("Well, about the well :");
    let txt2 = String::from("One can move the city, but not the well.");

    let key = "The Well";
    let mut mock = MockTextHandler::new();
    mock.write_text(key, txt1.clone()).unwrap();
    mock.write_text(key, txt2.clone()).unwrap();
    let read_back = mock.read_text(key).unwrap();

    assert_eq!(txt2, read_back);
}

#[test]
fn mock_read_missing() {
    let mock = MockTextHandler::new();
    let result = mock.read_text("Whatever");

    match result {
        Ok(_) => panic!("Method read_text should return an Err if no text with the passed name is found."),
        Err(err) => {
            assert_eq!(TextError::NotFound, err);
        },
    }
}

#[test]
fn separate_stores_share_nothing() {
    let mut mock = MockTextHandler::new();
    mock.write_text("tests/playground/myText.txt", String::from("text")).unwrap();
    let other = MockTextHandler::new();
    assert_eq!(other.read_text("tests/playground/myText.txt"), Err(TextError::NotFound));
}

#[test]
fn overwrite_keeps_one_name() {
    let mut mock = MockTextHandler::new();
    mock.write_text("a", String::from("first")).unwrap();
    mock.write_text("b", String::from("other")).unwrap();
    mock.write_text("a", String::from("second")).unwrap();
    assert_eq!(mock.read_text("a").unwrap(), "second");
    assert_eq!(mock.read_text("b").unwrap(), "other");
    assert_eq!(mock.list_names("a"), vec![String::from("a")]);
    let mut all = mock.list_names("*");
    all.sort();
    assert_eq!(all, vec![String::from("a"), String::from("b")]);
}

#[test]
fn empty_name_and_empty_content() {
    let mut mock = MockTextHandler::new();
    assert_eq!(mock.read_text(""), Err(TextError::NotFound));
    mock.write_text("", String::new()).unwrap();
    assert_eq!(mock.read_text("").unwrap(), "");
}

#[test]
fn mock_wildcard_listing() {
    let mut mock = MockTextHandler::new();
    mock.write_text("The Burning of Auchindoon", String::from("1")).unwrap();
    mock.write_text("Auchindoon was in a blaze", String::from("2")).unwrap();
    mock.write_text("Willy MacIntosh", String::from("3")).unwrap();

    let mut found = mock.list_names("*Auchindoon*");
    found.sort();
    assert_eq!(
        found,
        vec![String::from("Auchindoon was in a blaze"), String::from("The Burning of Auchindoon")]
    );
}

#[test]
fn mock_plain_listing() {
    let mut mock = MockTextHandler::new();
    mock.write_text("Willy MacIntosh", String::from("3")).unwrap();
    assert_eq!(mock.list_names("Willy MacIntosh"), vec![String::from("Willy MacIntosh")]);
    assert!(mock.list_names("Willy").is_empty());
    assert!(mock.list_names("willy macintosh").is_empty());
}

#[test]
fn mock_listing_ignores_directories() {
    let mut mock = MockTextHandler::new();
    mock.write_text("dir/a.txt", String::from("1")).unwrap();
    mock.write_text("dir/sub/b.txt", String::from("2")).unwrap();
    mock.write_text("other/c.txt", String::from("3")).unwrap();

    let mut found = mock.list_names("dir/*");
    found.sort();
    assert_eq!(found, vec![String::from("dir/a.txt"), String::from("dir/sub/b.txt")]);
    // A wildcard before a separator is no error here.
    let mut found = mock.list_names("*/c.txt");
    found.sort();
    assert_eq!(found, vec![String::from("other/c.txt")]);
    assert_eq!(mock.list_names("d?r/a.txt"), vec![String::from("dir/a.txt")]);
}
