use threet::compositor::Compositor;
use threet::layout::Layout;
use threet::layout::Rect;
use threet::views::AppView;
use threet::views::AuthenticateView;
use threet::views::ChatView;

fn rect(x: u16, y: u16, width: u16, height: u16) -> Rect {
    Rect { x, y, width, height }
}

fn login() -> AppView {
    AppView::Authenticate(AuthenticateView::new())
}

fn pane_rects(c: &Compositor) -> Vec<Rect> {
    c.panes().into_iter().map(|(_, r)| r).collect()
}

#[test]
fn new_compositor_has_no_pane() {
    let c = Compositor::new(rect(0, 0, 80, 24));
    assert!(c.panes().is_empty());
    assert!(c.current_view().is_none());
}

#[test]
fn rect_new_clamps_to_cell_space() {
    assert_eq!(Rect::new(65530, 0, 100, 5), rect(65530, 0, 5, 5));
    assert_eq!(Rect::new(1, 2, 3, 4), rect(1, 2, 3, 4));
}

#[test]
fn first_split_fills_the_root() {
    let mut c = Compositor::new(rect(0, 0, 80, 24));
    assert!(c.split_view(login(), Layout::Vertical));
    assert_eq!(pane_rects(&c), vec![rect(0, 0, 80, 24)]);
    assert!(matches!(c.current_view(), Some(AppView::Authenticate(_))));
}

#[test]
fn first_split_horizontal_turns_root_horizontal() {
    let mut c = Compositor::new(rect(0, 0, 80, 24));
    c.split_view(login(), Layout::Horizontal);
    c.split_view(login(), Layout::Horizontal);
    assert_eq!(pane_rects(&c), vec![rect(0, 0, 80, 12), rect(0, 12, 80, 12)]);
}

#[test]
fn same_layout_split_adds_sibling_after_focus() {
    let mut c = Compositor::new(rect(0, 0, 100, 50));
    c.split_view(login(), Layout::Vertical);
    c.split_view(AppView::Chat(ChatView::new()), Layout::Vertical);
    assert_eq!(pane_rects(&c), vec![rect(0, 0, 50, 50), rect(50, 0, 50, 50)]);
    assert!(matches!(c.current_view(), Some(AppView::Chat(_))));
    let panes = c.panes();
    assert!(matches!(c.pane_view(panes[0].0), Some(AppView::Authenticate(_))));
    assert!(matches!(c.pane_view(panes[1].0), Some(AppView::Chat(_))));
}

#[test]
fn other_layout_split_nests_a_container() {
    let mut c = Compositor::new(rect(0, 0, 100, 50));
    c.split_view(login(), Layout::Vertical);
    c.split_view(login(), Layout::Vertical);
    c.split_view(login(), Layout::Horizontal);
    assert_eq!(
        pane_rects(&c),
        vec![rect(0, 0, 50, 50), rect(50, 0, 50, 25), rect(50, 25, 50, 25)]
    );
}

#[test]
fn resize_recomputes_every_rectangle() {
    let mut c = Compositor::new(rect(0, 0, 10, 10));
    c.split_view(login(), Layout::Vertical);
    c.split_view(login(), Layout::Horizontal);
    c.resize((40, 20));
    assert_eq!(pane_rects(&c), vec![rect(0, 0, 40, 10), rect(0, 10, 40, 10)]);
}

#[test]
fn remainder_goes_to_last_child() {
    let mut c = Compositor::new(rect(0, 0, 10, 10));
    c.split_view(login(), Layout::Vertical);
    c.split_view(login(), Layout::Vertical);
    c.split_view(login(), Layout::Vertical);
    c.resize((101, 7));
    let rects = pane_rects(&c);
    assert_eq!(rects, vec![rect(0, 0, 33, 7), rect(33, 0, 33, 7), rect(66, 0, 35, 7)]);
    let total: u32 = rects.iter().map(|r| r.width as u32).sum();
    assert_eq!(total, 101);
}

#[test]
fn split_then_resize_children_fill_each_container() {
    let mut c = Compositor::new(rect(0, 0, 10, 10));
    c.split_view(login(), Layout::Vertical);
    c.split_view(login(), Layout::Horizontal);
    c.split_view(login(), Layout::Horizontal);
    c.split_view(login(), Layout::Vertical);
    c.resize((77, 31));
    let rects = pane_rects(&c);
    assert_eq!(
        rects,
        vec![rect(0, 0, 77, 10), rect(0, 10, 77, 10), rect(0, 20, 38, 11), rect(38, 20, 39, 11)]
    );
    let area: u32 = rects.iter().map(|r| r.width as u32 * r.height as u32).sum();
    assert_eq!(area, 77 * 31);
}

#[test]
fn zero_size_viewport() {
    let mut c = Compositor::new(rect(0, 0, 10, 10));
    c.split_view(login(), Layout::Vertical);
    c.split_view(login(), Layout::Vertical);
    c.resize((0, 0));
    assert_eq!(pane_rects(&c), vec![rect(0, 0, 0, 0), rect(0, 0, 0, 0)]);
}

#[test]
fn swap_current_view_hands_back_old_view() {
    let mut c = Compositor::new(rect(0, 0, 10, 10));
    assert!(c.swap_current_view(login()).is_none());
    c.split_view(login(), Layout::Vertical);
    let old = c.swap_current_view(AppView::Chat(ChatView::new()));
    assert!(matches!(old, Some(AppView::Authenticate(_))));
    assert!(matches!(c.current_view(), Some(AppView::Chat(_))));
}

#[test]
fn remove_with_root_focus_does_nothing() {
    let mut c = Compositor::new(rect(0, 0, 10, 10));
    assert!(!c.remove());
    assert!(c.panes().is_empty());
}

#[test]
fn remove_gives_space_to_the_remaining_sibling() {
    let mut c = Compositor::new(rect(0, 0, 100, 50));
    c.split_view(login(), Layout::Vertical);
    c.split_view(AppView::Chat(ChatView::new()), Layout::Vertical);
    assert!(c.remove());
    assert_eq!(pane_rects(&c), vec![rect(0, 0, 100, 50)]);
    assert!(matches!(c.current_view(), Some(AppView::Authenticate(_))));
}

#[test]
fn remove_collapses_single_child_container() {
    let mut c = Compositor::new(rect(0, 0, 100, 50));
    c.split_view(login(), Layout::Vertical);
    c.split_view(AppView::Chat(ChatView::new()), Layout::Vertical);
    c.split_view(login(), Layout::Horizontal);
    assert_eq!(pane_rects(&c).len(), 3);
    assert!(c.remove());
    assert_eq!(pane_rects(&c), vec![rect(0, 0, 50, 50), rect(50, 0, 50, 50)]);
    let panes = c.panes();
    assert!(matches!(c.pane_view(panes[1].0), Some(AppView::Chat(_))));
    assert!(matches!(c.current_view(), Some(AppView::Authenticate(_))));
    assert!(c.remove());
    assert_eq!(pane_rects(&c), vec![rect(0, 0, 100, 50)]);
    assert!(matches!(c.current_view(), Some(AppView::Chat(_))));
}

#[test]
fn removing_the_last_pane_empties_the_root() {
    let mut c = Compositor::new(rect(0, 0, 10, 10));
    c.split_view(login(), Layout::Vertical);
    assert!(c.remove());
    assert!(c.panes().is_empty());
    assert!(c.current_view().is_none());
    assert!(c.split_view(login(), Layout::Horizontal));
    assert_eq!(pane_rects(&c), vec![rect(0, 0, 10, 10)]);
}

#[test]
fn push_follows_the_container_axis() {
    let mut c = Compositor::new(rect(0, 0, 90, 30));
    c.split_view(login(), Layout::Vertical);
    c.split_view(login(), Layout::Horizontal);
    assert!(c.push(AppView::Chat(ChatView::new())));
    assert_eq!(
        pane_rects(&c),
        vec![rect(0, 0, 90, 10), rect(0, 10, 90, 10), rect(0, 20, 90, 10)]
    );
}
