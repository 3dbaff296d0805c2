use fast_tak::colors::{from_color, to_color, Colors, ColorsIter};
use takparse::Color;

fn collect(mut iter: ColorsIter) -> Vec<Color> {
    let mut out = Vec::new();
    while let Some(c) = iter.next() {
        out.push(c);
    }
    out
}

#[test]
fn color_num() {
    assert_eq!(Color::White, to_color(from_color(Color::White)));
    assert_eq!(Color::Black, to_color(from_color(Color::Black)));
    assert_eq!(from_color(Color::White), 1);
    assert_eq!(from_color(Color::Black), 0);
}

#[test]
fn push_pop() {
    let mut colors = Colors::default();
    colors.push(Color::White);
    colors.push(Color::White);
    colors.push(Color::Black);
    colors.push(Color::White);
    colors.push(Color::Black);

    assert_eq!(colors.len(), 5);
    assert_eq!(colors.pop(), Some(Color::Black));
    assert_eq!(colors.pop(), Some(Color::White));
    assert_eq!(colors.pop(), Some(Color::Black));
    assert_eq!(colors.pop(), Some(Color::White));
    assert_eq!(colors.pop(), Some(Color::White));
    assert_eq!(colors.pop(), None);
}

#[test]
fn iter() {
    let mut colors = Colors::of_one(Color::White);
    colors.push(Color::Black);
    colors.push(Color::Black);
    colors.push(Color::White);
    colors.push(Color::White);
    colors.push(Color::Black);

    assert_eq!(colors.len(), 6);
    let v: Vec<_> = collect(colors.into_iter());
    assert_eq!(v, [
        Color::White,
        Color::Black,
        Color::Black,
        Color::White,
        Color::White,
        Color::Black
    ]);
}

#[test]
fn take() {
    let mut colors = Colors::of_one(Color::White);
    colors.push(Color::Black);
    colors.push(Color::White);
    colors.push(Color::Black);
    colors.push(Color::Black);
    colors.push(Color::White);

    assert_eq!(colors.len(), 6);
    let mut a = colors.take(5).unwrap();
    assert_eq!(colors.len(), 1);
    assert_eq!(a.len(), 5);

    assert_eq!(a.pop(), Some(Color::White));
    assert_eq!(a.pop(), Some(Color::Black));
    assert_eq!(a.pop(), Some(Color::Black));
    assert_eq!(a.pop(), Some(Color::White));
    assert_eq!(a.pop(), Some(Color::Black));
    assert_eq!(a.pop(), None);

    assert_eq!(colors.pop(), Some(Color::White));
    assert_eq!(colors.pop(), None);
}

#[test]
fn reverse() {
    let mut colors = Colors::of_one(Color::White);
    colors.push(Color::White);
    colors.push(Color::Black);
    colors.push(Color::Black);
    colors.push(Color::Black);
    colors.push(Color::White);

    assert_eq!(colors.len(), 6);
    assert_eq!(colors, colors.reverse().reverse());
    let v: Vec<_> = collect(colors.reverse().into_iter());
    assert_eq!(v, [
        Color::White,
        Color::Black,
        Color::Black,
        Color::Black,
        Color::White,
        Color::White
    ]);

    // The iterator goes from bottom to top.
    let mut iter = colors.into_iter();
    let mut reverse = colors.reverse();
    assert_eq!(reverse.len(), 6);
    while let (Some(x), Some(y)) = (iter.next(), reverse.pop()) {
        assert_eq!(x, y);
    }
    assert_eq!(iter.next(), None);
    assert!(reverse.is_empty());
}

#[test]
fn push_then_pop_restores_length() {
    let mut colors = Colors::of_one(Color::Black);
    colors.push(Color::White);
    let before = colors;
    colors.push(Color::Black);
    assert_eq!(colors.pop(), Some(Color::Black));
    assert_eq!(colors.len(), 2);
    assert_eq!(colors, before);
}

#[test]
fn scenario_push_three_pop_all() {
    let mut colors = Colors::default();
    colors.push(Color::White);
    colors.push(Color::White);
    colors.push(Color::Black);
    assert_eq!(colors.len(), 3);
    assert_eq!(colors.top(), Some(Color::Black));
    assert_eq!(colors.pop(), Some(Color::Black));
    assert_eq!(colors.pop(), Some(Color::White));
    assert_eq!(colors.pop(), Some(Color::White));
    assert_eq!(colors.pop(), None);
    assert_eq!(colors.len(), 0);
    assert!(colors.is_empty());
    assert_eq!(colors.top(), None);
}

#[test]
fn scenario_build_then_iterate() {
    let colors = Colors::from_iter(&[Color::White, Color::Black, Color::Black]);
    assert_eq!(colors.len(), 3);
    assert_eq!(colors.top(), Some(Color::Black));
    assert_eq!(collect(colors.into_iter()), vec![Color::White, Color::Black, Color::Black]);
}

#[test]
fn take_too_many_leaves_stack() {
    let mut colors = Colors::from_iter(&[Color::White, Color::Black]);
    let before = colors;
    assert_eq!(colors.take(3), None);
    assert_eq!(colors, before);
    assert_eq!(colors.len(), 2);
}

#[test]
fn take_all_and_none() {
    let mut colors = Colors::from_iter(&[Color::White, Color::Black, Color::White]);
    let none = colors.take(0).unwrap();
    assert!(none.is_empty());
    assert_eq!(colors.len(), 3);
    let all = colors.take(3).unwrap();
    assert!(colors.is_empty());
    assert_eq!(all, Colors::from_iter(&[Color::White, Color::Black, Color::White]));
}

#[test]
fn take_keeps_order_of_top() {
    let mut colors = Colors::from_iter(&[Color::Black, Color::White, Color::White, Color::Black]);
    let taken = colors.take(2).unwrap();
    assert_eq!(taken, Colors::from_iter(&[Color::White, Color::Black]));
    assert_eq!(colors, Colors::from_iter(&[Color::Black, Color::White]));
}

#[test]
fn reverse_of_empty_and_single() {
    let empty = Colors::default();
    assert_eq!(empty.reverse(), empty);
    let one = Colors::of_one(Color::White);
    assert_eq!(one.reverse(), one);
    let two = Colors::from_iter(&[Color::White, Color::Black]);
    assert_eq!(two.reverse(), Colors::from_iter(&[Color::Black, Color::White]));
}

#[test]
fn largest_stack() {
    let tokens: Vec<Color> = (0..63).map(|i| if i % 3 == 0 { Color::White } else { Color::Black }).collect();
    let mut colors = Colors::from_iter(&tokens);
    assert_eq!(colors.len(), 63);
    assert_eq!(colors.reverse().reverse(), colors);
    assert_eq!(collect(colors.into_iter()), tokens);
    let top = colors.take(63).unwrap();
    assert!(colors.is_empty());
    assert_eq!(top.len(), 63);
}

#[test]
fn size_hint_counts_rest() {
    let colors = Colors::from_iter(&[Color::White, Color::Black, Color::Black]);
    let mut iter = colors.into_iter();
    assert_eq!(iter.size_hint(), (3, Some(3)));
    iter.next();
    assert_eq!(iter.size_hint(), (2, Some(2)));
}

#[test]
fn order_follows_raw_word() {
    let a = Colors::of_one(Color::Black);
    let b = Colors::of_one(Color::White);
    assert!(a.precedes(b));
    assert!(!b.precedes(a));
    assert!(Colors::default().precedes(a));
}
