use parsing::book::Book;
use parsing::person::Person;

#[test]
fn person_full_name() {
    let me = Person::new("Crisp", "Thinking");
    assert_eq!(me.name(), "Crisp Thinking");
}

#[test]
fn person_name_with_empty_parts() {
    assert_eq!(Person::new("", "Smith").name(), " Smith");
    assert_eq!(Person::new("Ada", "").name(), "Ada ");
}

#[test]
fn new_book_opens_at_page_one() {
    let book = Book::new("Moby Dick");
    let shown = format!("{:?}", book);
    assert!(shown.contains("Moby Dick"));
    assert!(shown.contains("page: 1"));
}
