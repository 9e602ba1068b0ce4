//! Cutting a document into its posts, one for each header line.

use crate::header::is_header;
use crate::header::read_title;
use crate::header::title_of;
use crate::text::is_complete;
use crate::text::join_lines;
use crate::text::lemma_lines_of_concat;
use crate::text::lines_of;
use crate::text::newline;
use crate::text::split_lines;
use vstd::prelude::*;

verus! {

/// One post of a document: its title, and its text from the header line
/// on, each line ended by a line feed.
#[derive(Debug)]
pub struct Post {
    pub title: String,
    pub content: String,
}

/// A `Post` with its strings as sequences of characters.
pub struct PostView {
    pub title: Seq<char>,
    pub content: Seq<char>,
}

impl View for Post {
    type V = PostView;

    open spec fn view(&self) -> PostView {
        PostView { title: self.title@, content: self.content@ }
    }
}

impl DeepView for Post {
    type V = PostView;

    open spec fn deep_view(&self) -> PostView {
        self@
    }
}

impl PostView {
    /// The post titled `title` that has no text yet.
    pub open spec fn titled(title: Seq<char>) -> PostView {
        PostView { title, content: Seq::empty() }
    }

    /// This post with `line` and a line feed added to its text.
    pub open spec fn with_line(self, line: Seq<char>) -> PostView {
        PostView { title: self.title, content: self.content + line + newline() }
    }

    /// The post that the header line `line` opens.
    pub open spec fn opened_by(line: Seq<char>) -> PostView {
        PostView::titled(title_of(line)).with_line(line)
    }
}

impl Post {
    /// A post titled `title` that has no text yet.
    pub fn new(title: &str) -> (post: Post)
        ensures
            post@ == PostView::titled(title@),
    {
        Post { title: String::from_str(title), content: String::new() }
    }

    /// Adds `line` and a line feed to the text of the post.
    pub fn add_line(&mut self, line: &str)
        ensures
            final(self)@ == old(self)@.with_line(line@),
    {
        self.content.append(line);
        self.content.push('\n');
        assert(self.content@ == old(self).content@ + line@ + newline());
    }
}

/// The posts that `lines` make up.
///
/// A header line opens a post. Any other line goes to the post that is
/// open, and is dropped where none is open yet.
pub open spec fn posts_of(lines: Seq<Seq<char>>) -> Seq<PostView>
    decreases lines.len(),
{
    if lines.len() == 0 {
        Seq::empty()
    } else {
        let before = posts_of(lines.drop_last());
        let line = lines.last();
        if is_header(line) {
            before.push(PostView::opened_by(line))
        } else if before.len() == 0 {
            before
        } else {
            before.drop_last().push(before.last().with_line(line))
        }
    }
}

/// The posts of the document `document`.
pub open spec fn split_text(document: Seq<char>) -> Seq<PostView> {
    posts_of(lines_of(document))
}

/// The header lines among `lines`.
pub open spec fn header_lines(lines: Seq<Seq<char>>) -> Seq<Seq<char>> {
    lines.filter(|line: Seq<char>| is_header(line))
}

/// There are as many posts as header lines.
pub proof fn lemma_one_post_per_header(lines: Seq<Seq<char>>)
    ensures
        posts_of(lines).len() == header_lines(lines).len(),
    decreases lines.len(),
{
    reveal(Seq::filter);
    if lines.len() > 0 {
        lemma_one_post_per_header(lines.drop_last());
    }
}

/// There are as many posts in a document as header lines.
pub proof fn lemma_one_post_per_header_line(document: Seq<char>)
    ensures
        split_text(document).len() == header_lines(lines_of(document)).len(),
{
    lemma_one_post_per_header(lines_of(document));
}

/// Lines that start with a header line give their posts whatever lines
/// stand before them.
pub proof fn lemma_posts_of_concat(head: Seq<Seq<char>>, tail: Seq<Seq<char>>)
    requires
        tail.len() == 0 || is_header(tail[0]),
    ensures
        posts_of(head + tail) == posts_of(head) + posts_of(tail),
    decreases tail.len(),
{
    if tail.len() == 0 {
        assert(head + tail == head);
        assert(posts_of(head) + posts_of(tail) == posts_of(head));
    } else {
        let all = head + tail;
        let front = tail.drop_last();
        assert(all.drop_last() == head + front);
        assert(all.last() == tail.last());
        if front.len() == 0 {
            assert(head + front == head);
            assert(posts_of(front) == Seq::<PostView>::empty());
            assert(posts_of(tail) == seq![PostView::opened_by(tail[0])]);
            assert(posts_of(all) == posts_of(head).push(PostView::opened_by(tail[0])));
            assert(posts_of(all) == posts_of(head) + posts_of(tail));
        } else {
            assert(front[0] == tail[0]);
            lemma_posts_of_concat(head, front);
            lemma_one_post_per_header(front);
            assert(posts_of(front).len() > 0) by {
                reveal(Seq::filter);
                lemma_header_line_is_counted(front, 0);
            }
            let line = tail.last();
            let done = posts_of(head);
            let open = posts_of(front);
            if is_header(line) {
                assert((done + open).push(PostView::opened_by(line)) == done + open.push(
                    PostView::opened_by(line),
                ));
            } else {
                assert((done + open).drop_last() == done + open.drop_last());
                assert((done + open).last() == open.last());
                assert((done + open.drop_last()).push(open.last().with_line(line)) == done
                    + open.drop_last().push(open.last().with_line(line)));
            }
        }
    }
}

/// A header line among `lines` is one of their header lines.
pub proof fn lemma_header_line_is_counted(lines: Seq<Seq<char>>, k: int)
    requires
        0 <= k < lines.len(),
        is_header(lines[k]),
    ensures
        header_lines(lines).len() > 0,
    decreases lines.len(),
{
    reveal(Seq::filter);
    if k < lines.len() - 1 {
        lemma_header_line_is_counted(lines.drop_last(), k);
    }
}

/// Lines before the first header line go to no post.
pub proof fn lemma_preamble_is_dropped(preamble: Seq<Seq<char>>, lines: Seq<Seq<char>>)
    requires
        forall|k: int| 0 <= k < preamble.len() ==> !is_header(preamble[k]),
    ensures
        posts_of(preamble) == Seq::<PostView>::empty(),
        posts_of(preamble + lines) == posts_of(lines),
    decreases lines.len(),
{
    lemma_no_header_no_post(preamble);
    if lines.len() == 0 {
        assert(preamble + lines == preamble);
    } else {
        let all = preamble + lines;
        assert(all.drop_last() == preamble + lines.drop_last());
        assert(all.last() == lines.last());
        lemma_preamble_is_dropped(preamble, lines.drop_last());
    }
}

/// Lines with no header line among them make no post.
pub proof fn lemma_no_header_no_post(lines: Seq<Seq<char>>)
    requires
        forall|k: int| 0 <= k < lines.len() ==> !is_header(lines[k]),
    ensures
        posts_of(lines) == Seq::<PostView>::empty(),
    decreases lines.len(),
{
    if lines.len() > 0 {
        lemma_no_header_no_post(lines.drop_last());
    }
}

/// What stands in a document before its first header line goes to no
/// post: the posts are those of the document without it.
pub proof fn lemma_text_before_first_header_is_dropped(preamble: Seq<char>, document: Seq<char>)
    requires
        is_complete(preamble),
        forall|k: int| 0 <= k < lines_of(preamble).len() ==> !is_header(lines_of(preamble)[k]),
    ensures
        split_text(preamble + document) == split_text(document),
{
    lemma_lines_of_concat(preamble, document);
    lemma_preamble_is_dropped(lines_of(preamble), lines_of(document));
}

/// A header line and lines that are none make one post: its title is
/// that of the header line, its text all the lines.
pub proof fn lemma_one_header_one_post(lines: Seq<Seq<char>>)
    requires
        lines.len() > 0,
        is_header(lines[0]),
        forall|k: int| 1 <= k < lines.len() ==> !is_header(lines[k]),
    ensures
        posts_of(lines) == seq![
            PostView { title: title_of(lines[0]), content: join_lines(lines) },
        ],
    decreases lines.len(),
{
    let front = lines.drop_last();
    if front.len() == 0 {
        assert(posts_of(front) == Seq::<PostView>::empty());
        assert(join_lines(front) == Seq::<char>::empty());
        assert(Seq::<char>::empty() + lines[0] + newline() == join_lines(lines));
        assert(posts_of(lines) == seq![PostView::opened_by(lines[0])]);
    } else {
        lemma_one_header_one_post(front);
        let post = PostView { title: title_of(lines[0]), content: join_lines(front) };
        assert(posts_of(front) == seq![post]);
        assert(seq![post].drop_last().push(post.with_line(lines.last())) == seq![
            post.with_line(lines.last()),
        ]);
    }
}

/// The posts finished so far, then the one that is open.
pub open spec fn with_open(done: Seq<PostView>, open: Option<PostView>) -> Seq<PostView> {
    match open {
        Some(post) => done.push(post),
        None => done,
    }
}

/// The posts that `lines` make up, in the order of the lines.
pub fn split_posts(lines: &Vec<String>) -> (posts: Vec<Post>)
    ensures
        posts.deep_view() == posts_of(lines.deep_view()),
{
    let mut posts: Vec<Post> = Vec::new();
    let mut current: Option<Post> = None;
    let mut i: usize = 0;
    proof {
        assert(lines.deep_view().take(0) == Seq::<Seq<char>>::empty());
        assert(posts.deep_view() == Seq::<PostView>::empty());
    }
    while i < lines.len()
        invariant
            i <= lines.len(),
            current is None ==> posts.len() == 0,
            with_open(
                posts.deep_view(),
                match current {
                    Some(p) => Some(p@),
                    None => None,
                },
            ) == posts_of(lines.deep_view().take(i as int)),
        decreases lines.len() - i,
    {
        let line = lines[i].as_str();
        let ghost seen = lines.deep_view().take(i as int);
        let ghost now = lines.deep_view().take(i + 1);
        let ghost done = posts.deep_view();
        proof {
            assert(now.drop_last() == seen);
            assert(now.last() == line@);
        }
        match read_title(line) {
            Some(title) => {
                match current {
                    Some(post) => {
                        posts.push(post);
                        proof {
                            assert(posts.deep_view() == done.push(post@));
                        }
                    },
                    None => {},
                }
                let mut post = Post::new(title.as_str());
                post.add_line(line);
                current = Some(post);
            },
            None => {
                match &mut current {
                    Some(post) => {
                        let ghost before = post@;
                        post.add_line(line);
                        proof {
                            assert(done.push(before).drop_last() == done);
                        }
                    },
                    None => {},
                }
            },
        }
        i += 1;
    }
    proof {
        assert(lines.deep_view().take(lines.len() as int) == lines.deep_view());
    }
    let ghost done = posts.deep_view();
    match current {
        Some(post) => {
            posts.push(post);
            proof {
                assert(posts.deep_view() == done.push(post@));
            }
        },
        None => {},
    }
    posts
}

/// The posts of `document`, in the order in which they stand in it.
pub fn split_document(document: &str) -> (posts: Vec<Post>)
    ensures
        posts.deep_view() == split_text(document@),
{
    let lines = split_lines(document);
    split_posts(&lines)
}

} // verus!
