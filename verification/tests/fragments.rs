use ui_composer::splice::engine::Composition;
use ui_composer::splice::range::FragmentId;
use ui_composer::ui::docks::{UIFragment, UIFragmentContainer, UIFragmentList, Workspace};
use ui_composer::ui::elements::{decimal_text, Fragment, Primitive};
use ui_composer::ui::geometry::{FlowDirection, UIVector, VectorCartesian, VectorEmbedded, UIAABB};
use ui_composer::ui::utils::RefStr;

type Producer = fn() -> Vec<Primitive>;

fn boxed(x: i32, y: i32, width: i32, height: i32) -> UIAABB {
    UIAABB::new(
        UIVector::Cartesian(VectorCartesian::new(x, y)),
        UIVector::Cartesian(VectorCartesian::new(width, height)),
    )
}

fn text(content: &str) -> Primitive {
    Primitive::Text(boxed(0, 0, 10, 10), content.to_owned())
}

fn text_of(primitive: &Primitive) -> String {
    match primitive {
        Primitive::Text(_, content) => content.clone(),
        _ => panic!("no text"),
    }
}

#[test]
fn number_renders_as_decimal_text() {
    for (value, expected) in
        [(0, "0"), (7, "7"), (10, "10"), (-1, "-1"), (i32::MAX, "2147483647"), (i32::MIN, "-2147483648")]
    {
        assert_eq!(decimal_text(value), expected);
        let primitives = value.primitives();
        assert_eq!(primitives.len(), 1);
        assert_eq!(text_of(&primitives[0]), expected);
    }
}

#[test]
fn number_renders_in_an_unplaced_box() {
    match &42.primitives()[0] {
        Primitive::Text(aabb, _) => assert_eq!(*aabb, UIAABB::unplaced()),
        _ => panic!("no text"),
    }
    assert_eq!(UIAABB::unplaced(), boxed(0, 0, 0, 0));
}

#[test]
fn primitive_renders_as_itself() {
    let primitives = text("Hello, World!").primitives();
    assert_eq!(primitives.len(), 1);
    assert_eq!(text_of(&primitives[0]), "Hello, World!");
    let rect = Primitive::Rect(boxed(1, 2, 3, 4), 0xdedede);
    match &rect.primitives()[0] {
        Primitive::Rect(aabb, style) => {
            assert_eq!(*aabb, boxed(1, 2, 3, 4));
            assert_eq!(*style, 0xdedede);
        }
        _ => panic!("no rect"),
    }
    let point = Primitive::Point(UIVector::InFlow(VectorEmbedded::new(3, 4)));
    match &point.clone().primitives()[0] {
        Primitive::Point(UIVector::InFlow(at)) => {
            assert_eq!((at.flow_axis, at.cross_axis), (3, 4))
        }
        _ => panic!("no point"),
    }
}

fn message_form() -> UIFragmentList {
    UIFragmentList::new(
        FlowDirection::TopToBottom,
        vec![
            UIFragment::Leaf(text("Messages, etc")),
            UIFragment::Container(UIFragmentList::new(
                FlowDirection::LeftToRight,
                vec![
                    UIFragment::Leaf(text("Enter your message...")),
                    UIFragment::Container(UIFragmentList::new(
                        FlowDirection::Forward,
                        vec![UIFragment::Leaf(Primitive::Rect(boxed(0, 0, 1, 1), 0)), UIFragment::Leaf(text("Send"))],
                    )),
                ],
            )),
            UIFragment::Container(UIFragmentList::new(FlowDirection::Forward, vec![])),
        ],
    )
}

#[test]
fn tree_flattens_in_document_order() {
    let form = message_form();
    let flat = form.primitives();
    assert_eq!(flat.len(), 4);
    assert_eq!(text_of(&flat[0]), "Messages, etc");
    assert_eq!(text_of(&flat[1]), "Enter your message...");
    assert!(matches!(flat[2], Primitive::Rect(_, 0)));
    assert_eq!(text_of(&flat[3]), "Send");
    assert_eq!(form.direction(), FlowDirection::TopToBottom);
    let root = UIFragment::Container(form);
    assert_eq!(root.flatten().len(), 4);
    assert_eq!(root.primitives().len(), 4);
    let workspace = Workspace::new(RefStr::new("main"), &root);
    assert_eq!(workspace.name.as_str(), "main");
    assert_eq!(workspace.primitives().len(), 4);
}

#[test]
fn children_own_contiguous_ranges() {
    let form = message_form();
    let composition: Composition<Primitive, Producer> = form.compose().unwrap();
    assert_eq!(composition.len(), 4);
    assert_eq!(composition.fragment_count(), 3);
    assert_eq!(composition.range_of(FragmentId(0)), Some((0, 1)));
    assert_eq!(composition.range_of(FragmentId(1)), Some((1, 4)));
    assert_eq!(composition.range_of(FragmentId(2)), Some((4, 4)));
    assert_eq!(text_of(&composition.primitives()[3]), "Send");
}

#[test]
fn child_rerenders_within_its_range() {
    let form = message_form();
    let mut composition: Composition<Primitive, Producer> = form.compose().unwrap();
    composition
        .splice(FragmentId(1), vec![text("Enter your message..."), Primitive::Rect(boxed(0, 0, 1, 1), 2), text("Sent!")])
        .unwrap();
    assert_eq!(text_of(&composition.primitives()[0]), "Messages, etc");
    assert_eq!(text_of(&composition.primitives()[3]), "Sent!");
    assert!(matches!(composition.primitives()[2], Primitive::Rect(_, 2)));
}

#[test]
fn flow_direction_reverses_along_its_axis() {
    let all = [
        FlowDirection::Forward,
        FlowDirection::Backward,
        FlowDirection::Horizontal,
        FlowDirection::HorizontalReverse,
        FlowDirection::Vertical,
        FlowDirection::VerticalReverse,
        FlowDirection::LeftToRight,
        FlowDirection::TopToBottom,
        FlowDirection::RightToLeft,
        FlowDirection::BottomToTop,
    ];
    for direction in all {
        assert_ne!(direction.reversed(), direction);
        assert_eq!(direction.reversed().reversed(), direction);
    }
    assert_eq!(FlowDirection::LeftToRight.reversed(), FlowDirection::RightToLeft);
    assert_eq!(FlowDirection::TopToBottom.reversed(), FlowDirection::BottomToTop);
    assert_eq!(FlowDirection::Forward.reversed(), FlowDirection::Backward);
    assert_eq!(FlowDirection::Horizontal.reversed(), FlowDirection::HorizontalReverse);
    assert_eq!(FlowDirection::Vertical.reversed(), FlowDirection::VerticalReverse);
}

#[test]
fn shared_text_keeps_its_content() {
    assert_eq!(RefStr::new("").as_str(), "");
    assert_eq!(RefStr::new("dock").as_str(), "dock");
    assert_eq!(RefStr::new("dock").into_shared().as_str(), "dock");
    let direction: ui_composer::ui::ui_types::UIFlowDirection = FlowDirection::Vertical;
    assert_eq!(direction.reversed(), FlowDirection::VerticalReverse);
}

#[test]
fn child_is_recomposed_into_its_own_range() {
    let mut form = message_form();
    let mut composition: Composition<Primitive, Producer> = form.compose().unwrap();
    form.list[2] = UIFragment::Container(UIFragmentList::new(
        FlowDirection::Forward,
        vec![UIFragment::Leaf(text("Sent!")), UIFragment::Leaf(text("Again"))],
    ));
    form.list[0] = UIFragment::Leaf(text("Inbox"));
    let change = form.recompose_child(&mut composition, 2).unwrap();
    assert_eq!((change.start, change.end, change.dirty_end), (4, 6, 6));
    let change = form.recompose_child(&mut composition, 0).unwrap();
    assert_eq!((change.start, change.end, change.dirty_end), (0, 1, 1));
    assert_eq!(composition.range_of(FragmentId(1)), Some((1, 4)));
    assert_eq!(composition.range_of(FragmentId(2)), Some((4, 6)));
    let texts: Vec<String> = [0, 1, 3, 4, 5].iter().map(|i| text_of(&composition.primitives()[*i])).collect();
    assert_eq!(texts, vec!["Inbox", "Enter your message...", "Send", "Sent!", "Again"]);
    let mut other: Composition<Primitive, Producer> = Composition::new();
    assert!(form.recompose_child(&mut other, 1).is_err());
}
