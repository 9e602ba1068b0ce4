use devlog::splitter::split_document;
use devlog::splitter::split_posts;
use devlog::splitter::Post;

fn lines(text: &[&str]) -> Vec<String> {
    text.iter().map(|line| String::from(*line)).collect()
}

#[test]
fn a_new_post_has_its_title_and_no_text() {
    let post = Post::new("02.01.2024 - B");
    assert_eq!(post.title, "02.01.2024 - B");
    assert_eq!(post.content, "");
}

#[test]
fn add_line_ends_each_line_with_a_line_feed() {
    let mut post = Post::new("T");
    post.add_line("# T");
    assert_eq!(post.content, "# T\n");
    post.add_line("");
    post.add_line("body");
    assert_eq!(post.content, "# T\n\nbody\n");
    assert_eq!(post.title, "T");
}

#[test]
fn no_lines_make_no_post() {
    assert!(split_posts(&lines(&[])).is_empty());
    assert!(split_document("").is_empty());
}

#[test]
fn a_header_line_opens_a_post() {
    let posts = split_posts(&lines(&["# A", "one", "two", "# B", "three"]));
    assert_eq!(posts.len(), 2);
    assert_eq!(posts[0].title, "A");
    assert_eq!(posts[0].content, "# A\none\ntwo\n");
    assert_eq!(posts[1].title, "B");
    assert_eq!(posts[1].content, "# B\nthree\n");
}

#[test]
fn lines_before_the_first_header_are_dropped() {
    let posts = split_document("stray\n\nmore\n# A\nbody\n");
    assert_eq!(posts.len(), 1);
    assert_eq!(posts[0].title, "A");
    assert_eq!(posts[0].content, "# A\nbody\n");
    assert!(split_document("no header\nat all\n").is_empty());
}

#[test]
fn there_is_a_post_for_each_header_line() {
    let document = "# A\n# B\n\n# C\nx\n## not one\n#neither\n # nor this\n# D";
    let posts = split_document(document);
    let headers = document.lines().filter(|line| line.starts_with("# ")).count();
    assert_eq!(headers, 4);
    assert_eq!(posts.len(), headers);
    assert_eq!(posts[0].content, "# A\n");
    assert_eq!(posts[1].content, "# B\n\n");
    assert_eq!(posts[2].content, "# C\nx\n## not one\n#neither\n # nor this\n");
    assert_eq!(posts[3].title, "D");
    assert_eq!(posts[3].content, "# D\n");
}

#[test]
fn posts_come_in_the_order_of_the_document() {
    let posts = split_document("# 01.01.2020 - old\n\n# 01.01.2024 - new\n\n");
    assert_eq!(posts[0].title, "01.01.2020 - old");
    assert_eq!(posts[1].title, "01.01.2024 - new");
}

#[test]
fn posts_of_one_title_are_both_kept() {
    let posts = split_document("# same\none\n# same\ntwo\n");
    assert_eq!(posts.len(), 2);
    assert_eq!(posts[0].title, "same");
    assert_eq!(posts[1].title, "same");
    assert_eq!(posts[0].content, "# same\none\n");
    assert_eq!(posts[1].content, "# same\ntwo\n");
}

#[test]
fn only_the_marker_at_the_start_is_stripped_from_a_title() {
    let posts = split_document("# a # b\n");
    assert_eq!(posts[0].title, "a # b");
    assert_eq!(posts[0].content, "# a # b\n");
}

#[test]
fn a_post_ends_each_line_with_a_line_feed() {
    let posts = split_document("# A\r\nbody\r\nlast");
    assert_eq!(posts.len(), 1);
    assert_eq!(posts[0].title, "A");
    assert_eq!(posts[0].content, "# A\nbody\nlast\n");
}
