use psets::readability::{get_data, grade, readability};

#[test]
fn test_readability() {
    let test_cases = [
        ("One fish. Two fish. Red fish. Blue fish.", "Before Grade 1"),
        ("Would you like them here or there? I would not like them here or there. I would not like them anywhere.", "Grade 2"),
        ("Congratulations! Today is your day. You're off to Great Places! You're off and away!", "Grade 3"),
        ("Harry Potter was a highly unusual boy in many ways. For one thing, he hated the summer holidays more than any other time of year. For another, he really wanted to do his homework, but was forced to do it in secret, in the dead of the night. And he also happened to be a wizard.", "Grade 5"),
        ("There are more things in Heaven and Earth, Horatio, than are dreamt of in your philosophy.", "Grade 9"),
        ("A large class of computational problems involve the determination of properties of graphs, digraphs, integers, arrays of integers, finite families of finite sets, boolean formulas and elements of other countable domains.", "Grade 16+"),
    ];
    for (text, expected) in test_cases.iter() {
        let result = readability(text.to_string());
        assert_eq!(result, *expected);
    }
}

#[test]
fn text_counts() {
    assert_eq!(get_data("One. Two! Three? yi,Pp Ee!!!"), (17, 6, 5));
    assert_eq!(get_data(""), (0, 0, 0));
    assert_eq!(get_data("héllo wörld"), (10, 0, 2));
}

#[test]
fn grade_boundaries() {
    assert_eq!(grade(0, 0, 0), "Grade NaN");
    // an index of exactly 1
    assert_eq!(grade(320, 63, 1), "Grade 1");
    assert_eq!(grade(1000, 0, 1), "Grade 16+");
    assert_eq!(grade(0, 0, 2), "Before Grade 1");
    // halves round to the even grade: 10.5 and 1.5
    assert_eq!(grade(165, 31, 2), "Grade 10");
    assert_eq!(grade(615, 121, 2), "Grade 2");
}
