use relm4::{ChangeType, FactoryVec};

#[derive(Debug, PartialEq, Eq)]
struct TestData(u8);

fn wrap(data: &[u8]) -> Vec<TestData> {
    data.iter().map(|d| TestData(*d)).collect()
}

/// A row of labels standing in for the widgets of a box: each label shows the
/// number of the data element it was built from.
struct LabelRow {
    texts: Vec<String>,
}

impl LabelRow {
    fn new() -> Self {
        LabelRow { texts: Vec::new() }
    }

    fn len(&self) -> usize {
        self.texts.len()
    }
}

/// Carries out the widget operations of the next generation on `view`, as the
/// factory does with real widgets.
fn generate(vec: &mut FactoryVec<TestData>, view: &mut LabelRow) {
    for (index, change) in vec.generate() {
        match change {
            ChangeType::Add => {
                let text = vec.get(index).unwrap().0.to_string();
                view.texts.push(text);
            }
            ChangeType::Update => {
                view.texts[index] = vec.get(index).unwrap().0.to_string();
            }
            ChangeType::Remove => {
                view.texts.remove(index);
            }
            ChangeType::Recreate => {
                view.texts[index] = vec.get(index).unwrap().0.to_string();
            }
        }
    }
}

fn child_texts(view: &LabelRow) -> Vec<String> {
    view.texts.clone()
}

/// Mutable and immutable getter functions of FactoryVec.
const GET_FUNCS: [fn(&mut FactoryVec<TestData>, usize) -> Option<&TestData>; 2] =
    [|v, i| v.get(i), |v, i| v.get_mut(i).map(|d| &*d)];

#[test]
fn simple_changes() {
    let mut view = LabelRow::new();

    let mut vec = FactoryVec::new();
    assert_eq!(vec.len(), view.len());
    assert_eq!(vec.len(), 0);
    assert_eq!(vec.pop(), None);
    vec.push(TestData(13));
    generate(&mut vec, &mut view);
    assert_eq!(vec.len(), view.len());
    assert_eq!(vec.len(), 1);
    vec.push(TestData(47));
    vec.push(TestData(48));
    generate(&mut vec, &mut view);
    assert_eq!(vec.len(), view.len());
    assert_eq!(vec.len(), 3);
    let el = vec.pop();
    generate(&mut vec, &mut view);
    assert_eq!(el, Some(TestData(48)));
    assert_eq!(vec.len(), view.len());
    assert_eq!(vec.len(), 2);
    vec.clear();
    generate(&mut vec, &mut view);
    assert_eq!(vec.len(), view.len());
    assert_eq!(vec.len(), 0);
    assert_eq!(vec.pop(), None);
    vec.clear();
    generate(&mut vec, &mut view);
    assert_eq!(vec.len(), view.len());
    assert_eq!(vec.len(), 0);
}

#[test]
fn data_consistent() {
    for get in GET_FUNCS {
        let vec = &mut FactoryVec::new();
        vec.push(TestData(128));
        assert_eq!(get(vec, 0), Some(&TestData(128)));
        assert_eq!(get(vec, 1), None);
        vec.push(TestData(222));
        vec.push(TestData(223));
        assert_eq!(get(vec, 0), Some(&TestData(128)));
        assert_eq!(get(vec, 1), Some(&TestData(222)));
        assert_eq!(get(vec, 2), Some(&TestData(223)));
        assert_eq!(get(vec, 3), None);
        vec.pop();
        vec.get_mut(0).unwrap().0 = 13;
        assert_eq!(get(vec, 0), Some(&TestData(13)));
        assert_eq!(get(vec, 1), Some(&TestData(222)));
        assert_eq!(get(vec, 2), None);
        assert_eq!(get(vec, 3), None);
        vec.clear();
        assert_eq!(get(vec, 0), None);
        assert_eq!(get(vec, 1), None);
        assert_eq!(get(vec, 2), None);
        assert_eq!(get(vec, 3), None);
    }
}

#[test]
fn unrealized_replace() {
    let initial_data = [vec![], vec![1], vec![1, 2, 3]];
    let control_data = [vec![], vec![5], vec![5, 7], vec![5, 7, 9]];

    let xs = initial_data.iter();
    let ys = control_data.iter();
    let test_cases = ys.flat_map(|y| xs.clone().map(move |x| (x, y)));

    for (initial, control) in test_cases {
        let mut view = LabelRow::new();
        let control_strs = control.iter().map(u8::to_string).collect::<Vec<_>>();

        let mut vec = FactoryVec::from_vec(wrap(initial));
        generate(&mut vec, &mut view);
        vec.clear();
        for data in control {
            vec.push(TestData(*data));
        }
        generate(&mut vec, &mut view);
        assert_eq!(child_texts(&view), control_strs);
    }
}

#[test]
fn all_state_transitions() {
    let mut view = LabelRow::new();

    let mut vec = FactoryVec::new();
    // NoneO → Add
    vec.push(TestData(13));
    // Add → NoneO
    vec.pop();
    vec.push(TestData(2));
    vec.push(TestData(23));
    generate(&mut vec, &mut view);
    // NoneX → Update
    vec.get_mut(0).unwrap();
    // NoneX → Remove
    vec.pop().unwrap();
    // Update → Remove
    vec.pop().unwrap();
    // Remove → Recreate
    vec.push(TestData(7));
    // Recreate → Remove
    vec.pop().unwrap();
    generate(&mut vec, &mut view);
}

#[test]
fn all_states_generated() {
    let mut view = LabelRow::new();

    let mut vec = FactoryVec::from_vec(wrap(&[0, 1, 2, 3])); // Add, None0
    generate(&mut vec, &mut view);
    // 0: NoneX
    vec.get_mut(1).unwrap().0 = 33; // 1: Update
    vec.pop(); // 3: Remove
    vec.pop();
    vec.push(TestData(66)); // 2. Recreate
    generate(&mut vec, &mut view);
    assert_eq!(child_texts(&view), ["0", "33", "66"]);
}

#[test]
fn generate_orders_changes_by_slot() {
    let mut vec = FactoryVec::from_vec(wrap(&[0, 1, 2, 3]));
    assert_eq!(
        vec.generate(),
        vec![
            (0, ChangeType::Add),
            (1, ChangeType::Add),
            (2, ChangeType::Add),
            (3, ChangeType::Add)
        ]
    );
    assert_eq!(vec.generate(), vec![]);
    vec.get_mut(2).unwrap().0 = 20;
    vec.get_mut(0).unwrap().0 = 10;
    vec.get_mut(2).unwrap().0 = 21;
    assert_eq!(vec.generate(), vec![(0, ChangeType::Update), (2, ChangeType::Update)]);
}

#[test]
fn removals_shift_later_places() {
    let mut vec = FactoryVec::from_vec(wrap(&[0, 1, 2, 3, 4]));
    vec.generate();
    vec.get_mut(1).unwrap().0 = 11;
    vec.pop();
    vec.pop();
    vec.pop();
    // Slots 2, 3 and 4 lose their widgets: each removal happens at place 2.
    assert_eq!(
        vec.generate(),
        vec![
            (1, ChangeType::Update),
            (2, ChangeType::Remove),
            (2, ChangeType::Remove),
            (2, ChangeType::Remove)
        ]
    );
    assert_eq!(vec.len(), 2);
}

#[test]
fn pop_undoes_push() {
    // A slot without data nor widget: push marks it for adding, pop unmarks it.
    let mut vec = FactoryVec::new();
    vec.push(TestData(1));
    assert_eq!(vec.pop(), Some(TestData(1)));
    assert_eq!(vec.generate(), vec![]);

    // A slot whose widget is to be removed: push marks it for recreation,
    // pop marks it for removal again.
    let mut vec = FactoryVec::from_vec(wrap(&[1, 2]));
    vec.generate();
    vec.pop();
    vec.push(TestData(5));
    assert_eq!(vec.pop(), Some(TestData(5)));
    assert_eq!(vec.generate(), vec![(1, ChangeType::Remove)]);
}

#[test]
fn remove_then_push_recreates() {
    let mut vec = FactoryVec::from_vec(wrap(&[1, 2]));
    vec.generate();
    vec.pop();
    vec.push(TestData(9));
    assert_eq!(vec.generate(), vec![(1, ChangeType::Recreate)]);
}

#[test]
fn clear_marks_every_widget_for_removal() {
    let mut vec = FactoryVec::from_vec(wrap(&[4, 5, 6]));
    vec.generate();
    vec.push(TestData(7));
    vec.clear();
    assert!(vec.is_empty());
    assert_eq!(
        vec.generate(),
        vec![
            (0, ChangeType::Remove),
            (0, ChangeType::Remove),
            (0, ChangeType::Remove)
        ]
    );
}

#[test]
fn unrealized_data_needs_no_widgets() {
    let mut vec = FactoryVec::from_vec(wrap(&[4, 5, 6]));
    vec.clear();
    assert_eq!(vec.generate(), vec![]);
}

#[test]
fn accessors_follow_the_data() {
    let mut vec: FactoryVec<TestData> = Default::default();
    assert!(vec.is_empty());
    vec.push(TestData(3));
    vec.push(TestData(4));
    assert!(!vec.is_empty());
    assert_eq!(vec.as_slice(), &[TestData(3), TestData(4)]);
    assert_eq!(vec.iter().map(|d| d.0).collect::<Vec<_>>(), vec![3, 4]);
    assert_eq!(vec.get_mut(2), None);
    assert_eq!(vec.into_vec(), wrap(&[3, 4]));
}

#[test]
fn generate_shows_current_values() {
    let mut view = LabelRow::new();
    let mut vec = FactoryVec::from_vec(wrap(&[1, 2, 3]));
    assert_eq!(vec.realized_len(), 0);
    generate(&mut vec, &mut view);
    assert_eq!(vec.realized_len(), 3);
    vec.get_mut(0).unwrap().0 = 10;
    vec.push(TestData(4));
    assert_eq!(vec.realized_len(), 3);
    generate(&mut vec, &mut view);
    assert_eq!(vec.realized_len(), 4);
    assert_eq!(child_texts(&view), ["10", "2", "3", "4"]);
}

#[test]
fn from_vec_marks_like_pushes() {
    let mut built = FactoryVec::from_vec(wrap(&[7, 8, 9]));
    let mut pushed = FactoryVec::new();
    for d in [7, 8, 9] {
        pushed.push(TestData(d));
    }
    assert_eq!(built.as_slice(), pushed.as_slice());
    assert_eq!(built.generate(), pushed.generate());
}
